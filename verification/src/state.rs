//! The seen-set: the durable record of message identifiers that have already
//! been reported. It is modelled as a set of character sequences; the text
//! format of the state file is one identifier per line, blank lines ignored.

use vstd::prelude::*;
use crate::text::is_blank;
use crate::text::is_space_char;
use crate::text::str_eq;
use crate::text::str_is_blank;

verus! {

/// A line with a trailing carriage return before a line feed has that
/// carriage return removed, as `str::lines` does.
pub open spec fn strip_cr(l: Seq<char>) -> Seq<char> {
    if l.len() > 0 && l.last() == '\r' {
        l.drop_last()
    } else {
        l
    }
}

/// The identifiers found in `s`, scanning character by character with `cur`
/// holding the characters of the line read so far. A line feed ends a line
/// (dropping a carriage return just before it); the text after the last line
/// feed is a line of its own, kept verbatim. Lines of nothing but whitespace
/// contribute nothing; the rest form a set.
pub open spec fn ids_from(s: Seq<char>, cur: Seq<char>) -> Set<Seq<char>>
    decreases s.len(),
{
    if s.len() == 0 {
        if is_blank(cur) {
            Set::empty()
        } else {
            Set::empty().insert(cur)
        }
    } else if s[0] == '\n' {
        let line = strip_cr(cur);
        let rest = ids_from(s.drop_first(), Seq::empty());
        if is_blank(line) {
            rest
        } else {
            rest.insert(line)
        }
    } else {
        ids_from(s.drop_first(), cur.push(s[0]))
    }
}

/// The set of identifiers that a state file with contents `s` denotes.
pub open spec fn parsed_ids(s: Seq<char>) -> Set<Seq<char>> {
    ids_from(s, Seq::empty())
}

/// Identifiers written out one per line: later identifiers each preceded by
/// a line feed, no trailing line feed.
pub open spec fn joined(ids: Seq<Seq<char>>) -> Seq<char>
    decreases ids.len(),
{
    if ids.len() == 0 {
        Seq::empty()
    } else if ids.len() == 1 {
        ids[0]
    } else {
        ids[0] + seq!['\n'] + joined(ids.drop_first())
    }
}

/// An identifier that survives a write to the state file and a reload
/// unchanged: not all whitespace, free of line feeds, and not ending in a
/// carriage return (which the reload would strip).
pub open spec fn line_safe(id: Seq<char>) -> bool {
    &&& !is_blank(id)
    &&& !id.contains('\n')
    &&& id.last() != '\r'
}

/// The set of message identifiers already reported to the user.
pub struct SeenEmails {
    ids: Vec<String>,
}

impl View for SeenEmails {
    type V = Set<Seq<char>>;

    open spec fn view(&self) -> Set<Seq<char>> {
        self.id_seq().to_set()
    }
}

impl SeenEmails {
    /// The stored identifiers in insertion order; the file format leaves the
    /// order unspecified, so only its set matters to callers.
    pub closed spec fn id_seq(&self) -> Seq<Seq<char>> {
        self.ids@.map_values(|s: String| s@)
    }

    /// Well-formed: no identifier is stored twice.
    pub open spec fn wf(&self) -> bool {
        self.id_seq().no_duplicates()
    }

    pub fn new() -> (r: SeenEmails)
        ensures
            r.wf(),
            r@ == Set::<Seq<char>>::empty(),
    {
        let r = SeenEmails { ids: Vec::new() };
        proof {
            assert(r.id_seq() =~= Seq::empty());
            assert(r@ =~= Set::<Seq<char>>::empty());
        }
        r
    }

    /// Membership test: case-sensitive, exact match.
    pub fn contains(&self, id: &str) -> (r: bool)
        ensures
            r == self@.contains(id@),
    {
        let n = self.ids.len();
        let mut i: usize = 0;
        while i < n
            invariant
                n == self.ids.len(),
                0 <= i <= n,
                forall|j: int| 0 <= j < i ==> self.id_seq()[j] != id@,
            decreases n - i,
        {
            if str_eq(self.ids[i].as_str(), id) {
                proof {
                    assert(self.id_seq()[i as int] == id@);
                    assert(self.id_seq().contains(id@));
                }
                return true;
            }
            i += 1;
        }
        proof {
            assert(!self.id_seq().contains(id@));
        }
        false
    }

    /// Inserts `id`; a no-op when it is already present.
    pub fn add(&mut self, id: String)
        requires
            old(self).wf(),
        ensures
            final(self).wf(),
            final(self)@ == old(self)@.insert(id@),
    {
        if !self.contains(id.as_str()) {
            let ghost before = self.id_seq();
            self.ids.push(id);
            proof {
                assert(self.id_seq() =~= before.push(id@));
                assert(self.wf());
                assert forall|x: Seq<char>| self@.contains(x) implies old(self)@.insert(
                    id@,
                ).contains(x) by {
                    let i = choose|i: int| 0 <= i < self.id_seq().len() && self.id_seq()[i] == x;
                    if i < before.len() {
                        assert(before[i] == x);
                        assert(before.contains(x));
                    }
                }
                assert forall|x: Seq<char>| old(self)@.insert(id@).contains(x) implies self@.contains(
                    x,
                ) by {
                    if x == id@ {
                        assert(self.id_seq()[before.len() as int] == id@);
                        assert(self.id_seq().contains(id@));
                    } else {
                        let i = choose|i: int| 0 <= i < before.len() && before[i] == x;
                        assert(self.id_seq()[i] == x);
                        assert(self.id_seq().contains(x));
                    }
                }
                assert(self@ =~= old(self)@.insert(id@));
            }
        } else {
            proof {
                assert(self@.contains(id@));
                assert forall|x: Seq<char>| old(self)@.insert(id@).contains(x) implies self@.contains(
                    x,
                ) by {
                    if x == id@ {
                        assert(self@.contains(id@));
                    }
                }
                assert(self@ =~= old(self)@.insert(id@));
            }
        }
    }

    /// Builds the set from the contents of the state file. `None` stands for
    /// a file that does not exist: a first run has no history, so the set is
    /// empty rather than an error. `Some` text is read as newline-separated
    /// identifiers; blank lines are ignored and duplicate lines collapse.
    pub fn load(content: Option<&str>) -> (r: SeenEmails)
        ensures
            r.wf(),
            r@ == match content {
                Some(text) => parsed_ids(text@),
                None => Set::<Seq<char>>::empty(),
            },
    {
        let text = match content {
            Some(text) => text,
            None => {
                return SeenEmails::new();
            },
        };
        let n = text.unicode_len();
        let mut seen = SeenEmails::new();
        let mut start: usize = 0;
        let mut i: usize = 0;
        proof {
            assert(text@.skip(0) =~= text@);
            assert(text@.subrange(0, 0) =~= Seq::<char>::empty());
            assert(seen@.union(parsed_ids(text@)) =~= parsed_ids(text@));
        }
        while i < n
            invariant
                n == text@.len(),
                0 <= start <= i <= n,
                seen.wf(),
                seen@.union(
                    ids_from(text@.skip(i as int), text@.subrange(start as int, i as int)),
                ) == parsed_ids(text@),
            decreases n - i,
        {
            let ghost cur = text@.subrange(start as int, i as int);
            let ghost tail = text@.skip(i as int);
            proof {
                assert(tail[0] == text@[i as int]);
                assert(tail.drop_first() =~= text@.skip(i as int + 1));
            }
            let c = text.get_char(i);
            if c == '\n' {
                let mut end = i;
                if end > start && text.get_char(end - 1) == '\r' {
                    end -= 1;
                    proof {
                        assert(cur.last() == text@[i as int - 1]);
                        assert(strip_cr(cur) =~= text@.subrange(start as int, end as int));
                    }
                } else {
                    proof {
                        if i > start {
                            assert(cur.last() == text@[i as int - 1]);
                        }
                        assert(strip_cr(cur) =~= text@.subrange(start as int, end as int));
                    }
                }
                let line = text.substring_char(start, end);
                proof {
                    assert(line@ == strip_cr(cur));
                }
                if !str_is_blank(line) {
                    seen.add(line.to_owned());
                    proof {
                        assert(seen@.union(ids_from(tail.drop_first(), Seq::empty())) =~= parsed_ids(
                            text@,
                        ));
                    }
                } else {
                    proof {
                        assert(seen@.union(ids_from(tail.drop_first(), Seq::empty())) =~= parsed_ids(
                            text@,
                        ));
                    }
                }
                start = i + 1;
                i = i + 1;
                proof {
                    assert(text@.subrange(start as int, i as int) =~= Seq::<char>::empty());
                }
            } else {
                proof {
                    assert(cur.push(text@[i as int]) =~= text@.subrange(
                        start as int,
                        i as int + 1,
                    ));
                }
                i = i + 1;
            }
        }
        let line = text.substring_char(start, n);
        proof {
            assert(text@.skip(n as int) =~= Seq::<char>::empty());
        }
        if !str_is_blank(line) {
            seen.add(line.to_owned());
            proof {
                assert(seen@ =~= parsed_ids(text@));
            }
        } else {
            proof {
                assert(seen@.union(Set::<Seq<char>>::empty()) =~= seen@);
            }
        }
        seen
    }

    /// Serializes the set as newline-joined identifiers, in an unspecified
    /// order, for writing to the state file. When every identifier is
    /// line-safe, loading the result yields this very set back.
    pub fn save(&self) -> (r: String)
        requires
            self.wf(),
        ensures
            r@ == joined(self.id_seq()),
            (forall|id: Seq<char>| self@.contains(id) ==> line_safe(id)) ==> parsed_ids(r@)
                == self@,
    {
        let mut out = String::new();
        let n = self.ids.len();
        let mut i: usize = 0;
        proof {
            assert(self.id_seq().take(0) =~= Seq::<Seq<char>>::empty());
        }
        while i < n
            invariant
                n == self.ids.len(),
                0 <= i <= n,
                out@ == joined(self.id_seq().take(i as int)),
            decreases n - i,
        {
            let ghost before = out@;
            let ghost prefix = self.id_seq().take(i as int);
            if i > 0 {
                out.append("\n");
            }
            out.append(self.ids[i].as_str());
            proof {
                reveal_strlit("\n");
                assert("\n"@ =~= seq!['\n']);
                assert(self.id_seq().take(i as int + 1) =~= prefix.push(self.id_seq()[i as int]));
                lemma_joined_push(prefix, self.id_seq()[i as int]);
                if i == 0 {
                    assert(out@ =~= self.id_seq()[0]);
                } else {
                    assert(out@ =~= joined(prefix) + seq!['\n'] + self.id_seq()[i as int]);
                }
            }
            i += 1;
        }
        proof {
            assert(self.id_seq().take(n as int) =~= self.id_seq());
            if forall|id: Seq<char>| self@.contains(id) ==> line_safe(id) {
                assert forall|j: int| 0 <= j < self.id_seq().len() implies line_safe(
                    #[trigger] self.id_seq()[j],
                ) by {
                    assert(self.id_seq().contains(self.id_seq()[j]));
                    assert(self@.contains(self.id_seq()[j]));
                }
                lemma_parse_joined(self.id_seq());
            }
        }
        out
    }

    /// The number of distinct identifiers.
    pub fn len(&self) -> (r: usize)
        requires
            self.wf(),
        ensures
            r == self@.len(),
    {
        proof {
            self.id_seq().unique_seq_to_set();
        }
        self.ids.len()
    }
}

proof fn lemma_joined_push(ids: Seq<Seq<char>>, x: Seq<char>)
    ensures
        joined(ids.push(x)) == if ids.len() == 0 {
            x
        } else {
            joined(ids) + seq!['\n'] + x
        },
    decreases ids.len(),
{
    if ids.len() == 0 {
        assert(ids.push(x)[0] == x);
    } else if ids.len() == 1 {
        assert(ids.push(x).drop_first() =~= seq![x]);
        assert(ids.push(x)[0] == ids[0]);
        assert(seq![x].len() == 1 && seq![x][0] == x);
        assert(joined(seq![x]) == x);
        assert(joined(ids.push(x)) == ids[0] + seq!['\n'] + x);
    } else {
        assert(ids.push(x).drop_first() =~= ids.drop_first().push(x));
        lemma_joined_push(ids.drop_first(), x);
        assert(ids[0] + seq!['\n'] + (joined(ids.drop_first()) + seq!['\n'] + x) =~= (ids[0]
            + seq!['\n'] + joined(ids.drop_first())) + seq!['\n'] + x);
    }
}

/// Scanning a stretch of text with no line feed in it only lengthens the
/// current line.
proof fn lemma_no_newline_extends(s: Seq<char>, u: Seq<char>, cur: Seq<char>)
    requires
        !s.contains('\n'),
    ensures
        ids_from(s + u, cur) == ids_from(u, cur + s),
    decreases s.len(),
{
    if s.len() == 0 {
        assert(s + u =~= u);
        assert(cur + s =~= cur);
    } else {
        assert(s[0] != '\n') by {
            assert(s.contains('\n') <== s[0] == '\n');
        }
        assert((s + u)[0] == s[0]);
        assert((s + u).len() > 0);
        assert((s + u).drop_first() =~= s.drop_first() + u);
        assert(!s.drop_first().contains('\n')) by {
            if s.drop_first().contains('\n') {
                let i = choose|i: int| 0 <= i < s.drop_first().len() && s.drop_first()[i] == '\n';
                assert(s[i + 1] == '\n');
            }
        }
        lemma_no_newline_extends(s.drop_first(), u, cur.push(s[0]));
        assert(cur.push(s[0]) + s.drop_first() =~= cur + s);
    }
}

/// Every identifier a state file denotes is non-blank and free of line feeds.
proof fn lemma_ids_from_wellformed(s: Seq<char>, cur: Seq<char>)
    requires
        !cur.contains('\n'),
    ensures
        forall|id: Seq<char>| #[trigger] ids_from(s, cur).contains(id) ==> !is_blank(id)
            && !id.contains('\n'),
    decreases s.len(),
{
    if s.len() == 0 {
        assert forall|id: Seq<char>| #[trigger] ids_from(s, cur).contains(id) implies !is_blank(id)
            && !id.contains('\n') by {
            if is_blank(cur) {
                assert(ids_from(s, cur) == Set::<Seq<char>>::empty());
            } else {
                assert(ids_from(s, cur) == Set::<Seq<char>>::empty().insert(cur));
                assert(id == cur);
            }
        }
    } else if s[0] == '\n' {
        let line = strip_cr(cur);
        let rest = ids_from(s.drop_first(), Seq::empty());
        assert(!line.contains('\n')) by {
            if line.contains('\n') {
                let i = choose|i: int| 0 <= i < line.len() && line[i] == '\n';
                assert(cur[i] == '\n');
                assert(cur.contains('\n'));
            }
        }
        lemma_ids_from_wellformed(s.drop_first(), Seq::empty());
        assert forall|id: Seq<char>| #[trigger] ids_from(s, cur).contains(id) implies !is_blank(id)
            && !id.contains('\n') by {
            if rest.contains(id) {
                assert(ids_from(s.drop_first(), Seq::empty()).contains(id));
            } else {
                assert(!is_blank(line) && id == line);
            }
        }
    } else {
        assert(!cur.push(s[0]).contains('\n')) by {
            if cur.push(s[0]).contains('\n') {
                let i = choose|i: int| 0 <= i < cur.push(s[0]).len() && cur.push(s[0])[i] == '\n';
                if i < cur.len() {
                    assert(cur[i] == '\n');
                    assert(cur.contains('\n'));
                }
            }
        }
        lemma_ids_from_wellformed(s.drop_first(), cur.push(s[0]));
        assert forall|id: Seq<char>| #[trigger] ids_from(s, cur).contains(id) implies !is_blank(id)
            && !id.contains('\n') by {
            assert(ids_from(s.drop_first(), cur.push(s[0])).contains(id));
        }
    }
}

/// Writing line-safe identifiers one per line and parsing the text back
/// yields exactly that set of identifiers.
proof fn lemma_parse_joined(ord: Seq<Seq<char>>)
    requires
        forall|i: int| 0 <= i < ord.len() ==> line_safe(#[trigger] ord[i]),
    ensures
        parsed_ids(joined(ord)) == ord.to_set(),
    decreases ord.len(),
{
    if ord.len() == 0 {
        assert(is_blank(Seq::<char>::empty()));
        assert(ord.to_set() =~= Set::<Seq<char>>::empty());
    } else if ord.len() == 1 {
        let id = ord[0];
        lemma_no_newline_extends(id, Seq::empty(), Seq::empty());
        assert(id + Seq::<char>::empty() =~= id);
        assert(Seq::<char>::empty() + id =~= id);
        assert(parsed_ids(id) =~= Set::<Seq<char>>::empty().insert(id));
        assert(ord.to_set() =~= Set::<Seq<char>>::empty().insert(id)) by {
            assert(ord.contains(id));
            assert forall|x: Seq<char>| ord.to_set().contains(x) implies x == id by {
                let i = choose|i: int| 0 <= i < ord.len() && ord[i] == x;
            }
        }
    } else {
        let id = ord[0];
        let rest = ord.drop_first();
        let tail = seq!['\n'] + joined(rest);
        assert(joined(ord) == id + seq!['\n'] + joined(rest));
        assert(id + seq!['\n'] + joined(rest) =~= id + tail);
        lemma_no_newline_extends(id, tail, Seq::empty());
        assert(Seq::<char>::empty() + id =~= id);
        assert(tail[0] == '\n');
        assert(tail.drop_first() =~= joined(rest));
        assert(strip_cr(id) == id);
        assert(ids_from(tail, id) == ids_from(joined(rest), Seq::empty()).insert(id));
        lemma_parse_joined(rest);
        assert(parsed_ids(joined(ord)) == rest.to_set().insert(id));
        assert(ord.to_set() =~= rest.to_set().insert(id)) by {
            assert forall|x: Seq<char>| ord.to_set().contains(x) implies rest.to_set().insert(
                id,
            ).contains(x) by {
                let i = choose|i: int| 0 <= i < ord.len() && ord[i] == x;
                if i > 0 {
                    assert(rest[i - 1] == x);
                    assert(rest.contains(x));
                }
            }
            assert forall|x: Seq<char>| rest.to_set().insert(id).contains(x) implies ord.to_set().contains(
                x,
            ) by {
                if x == id {
                    assert(ord.contains(id));
                } else {
                    let i = choose|i: int| 0 <= i < rest.len() && rest[i] == x;
                    assert(ord[i + 1] == x);
                    assert(ord.contains(x));
                }
            }
        }
    }
}

/// Law: a round trip through the state file is the identity on the set, for
/// any loaded set whose identifiers do not end in a carriage return —
/// serializing a `SeenEmails` that holds exactly the identifiers of some
/// state file and parsing the result yields the same set again.
pub proof fn lemma_save_load_round_trip(seen: SeenEmails, content: Seq<char>)
    requires
        seen.wf(),
        seen@ == parsed_ids(content),
        forall|id: Seq<char>| #[trigger] seen@.contains(id) ==> id.last() != '\r',
    ensures
        parsed_ids(joined(seen.id_seq())) == seen@,
{
    lemma_ids_from_wellformed(content, Seq::empty());
    assert forall|j: int| 0 <= j < seen.id_seq().len() implies line_safe(
        #[trigger] seen.id_seq()[j],
    ) by {
        assert(seen.id_seq().contains(seen.id_seq()[j]));
        assert(seen@.contains(seen.id_seq()[j]));
    }
    lemma_parse_joined(seen.id_seq());
}

/// Law: blank lines in a state file are irrelevant — inserting a blank line
/// (of whitespace only, with no line feed of its own) anywhere between two
/// line feeds leaves the parsed set unchanged.
pub proof fn lemma_blank_lines_ignored(a: Seq<char>, b: Seq<char>, c: Seq<char>)
    requires
        is_blank(b),
        !b.contains('\n'),
    ensures
        parsed_ids(a + seq!['\n'] + b + seq!['\n'] + c) == parsed_ids(a + seq!['\n'] + c),
{
    lemma_blank_line_dropped(a, b, c, Seq::empty());
    assert(a + seq!['\n'] + b + seq!['\n'] + c =~= a + (seq!['\n'] + b + seq!['\n'] + c));
    assert(a + seq!['\n'] + c =~= a + (seq!['\n'] + c));
}

proof fn lemma_blank_line_dropped(a: Seq<char>, b: Seq<char>, c: Seq<char>, cur: Seq<char>)
    requires
        is_blank(b),
        !b.contains('\n'),
    ensures
        ids_from(a + (seq!['\n'] + b + seq!['\n'] + c), cur) == ids_from(
            a + (seq!['\n'] + c),
            cur,
        ),
    decreases a.len(),
{
    let left = a + (seq!['\n'] + b + seq!['\n'] + c);
    let right = a + (seq!['\n'] + c);
    if a.len() == 0 {
        assert(left =~= seq!['\n'] + b + seq!['\n'] + c);
        assert(right =~= seq!['\n'] + c);
        assert(left[0] == '\n');
        assert(right[0] == '\n');
        assert(left.drop_first() =~= b + (seq!['\n'] + c));
        assert(right.drop_first() =~= c);
        lemma_no_newline_extends(b, seq!['\n'] + c, Seq::empty());
        assert(Seq::<char>::empty() + b =~= b);
        let mid = seq!['\n'] + c;
        assert(mid[0] == '\n');
        assert(mid.drop_first() =~= c);
        assert(is_blank(strip_cr(b))) by {
            assert forall|i: int| 0 <= i < strip_cr(b).len() implies is_space_char(
                #[trigger] strip_cr(b)[i],
            ) by {
                assert(strip_cr(b)[i] == b[i]);
            }
        }
        assert(ids_from(b + mid, Seq::empty()) == ids_from(c, Seq::empty()));
    } else {
        assert(left[0] == a[0]);
        assert(right[0] == a[0]);
        assert(left.drop_first() =~= a.drop_first() + (seq!['\n'] + b + seq!['\n'] + c));
        assert(right.drop_first() =~= a.drop_first() + (seq!['\n'] + c));
        if a[0] == '\n' {
            lemma_blank_line_dropped(a.drop_first(), b, c, Seq::empty());
        } else {
            lemma_blank_line_dropped(a.drop_first(), b, c, cur.push(a[0]));
        }
    }
}

} // verus!
