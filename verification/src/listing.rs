use vstd::prelude::*;

use crate::diag::Diagnostic;

verus! {

/// A byte treated as blank when a listing line is trimmed: space, tab, or
/// carriage return.
pub open spec fn is_blank(b: u8) -> bool {
    b == 32 || b == 9 || b == 13
}

/// `s` with its leading blank bytes removed.
pub open spec fn trim_front(s: Seq<u8>) -> Seq<u8>
    decreases s.len(),
{
    if s.len() > 0 && is_blank(s[0]) {
        trim_front(s.drop_first())
    } else {
        s
    }
}

/// `s` with its trailing blank bytes removed.
pub open spec fn trim_back(s: Seq<u8>) -> Seq<u8>
    decreases s.len(),
{
    if s.len() > 0 && is_blank(s[s.len() - 1]) {
        trim_back(s.drop_last())
    } else {
        s
    }
}

/// A listing line with leading and trailing blanks removed.
pub open spec fn trimmed(s: Seq<u8>) -> Seq<u8> {
    trim_back(trim_front(s))
}

/// `trim_front` keeps a suffix: the result is `s` without its first bytes.
proof fn lemma_trim_front_is_suffix(s: Seq<u8>)
    ensures
        trim_front(s) == s.subrange(s.len() - trim_front(s).len(), s.len() as int),
        trim_front(s).len() <= s.len(),
        trim_front(s).len() > 0 ==> !is_blank(trim_front(s)[0]),
    decreases s.len(),
{
    if s.len() > 0 && is_blank(s[0]) {
        lemma_trim_front_is_suffix(s.drop_first());
        assert(s.drop_first() =~= s.subrange(1, s.len() as int));
        assert(trim_front(s) =~= s.subrange(s.len() - trim_front(s).len(), s.len() as int));
    } else {
        assert(s =~= s.subrange(0, s.len() as int));
    }
}

/// `trim_back` keeps a prefix: the result is `s` without its last bytes.
proof fn lemma_trim_back_is_prefix(s: Seq<u8>)
    ensures
        trim_back(s) == s.subrange(0, trim_back(s).len() as int),
        trim_back(s).len() <= s.len(),
        trim_back(s).len() > 0 ==> !is_blank(trim_back(s)[trim_back(s).len() - 1]),
    decreases s.len(),
{
    if s.len() > 0 && is_blank(s[s.len() - 1]) {
        lemma_trim_back_is_prefix(s.drop_last());
        assert(s.drop_last() =~= s.subrange(0, s.len() - 1));
        assert(trim_back(s) =~= s.subrange(0, trim_back(s).len() as int));
    } else {
        assert(s =~= s.subrange(0, s.len() as int));
    }
}

/// Trimming is idempotent: a trimmed line has no blank edge left.
proof fn lemma_trimmed_idempotent(s: Seq<u8>)
    ensures
        trimmed(trimmed(s)) == trimmed(s),
{
    lemma_trim_front_is_suffix(s);
    lemma_trim_back_is_prefix(trim_front(s));
    let t = trimmed(s);
    if t.len() > 0 {
        assert(t[0] == trim_front(s)[0]);
        assert(trim_front(t) == t);
        assert(trim_back(t) == t);
    } else {
        assert(trim_front(t) == t);
        assert(trim_back(t) == t);
    }
}

/// The mathematical value of one listing entry: a path and the 1-based line
/// of the listing text it came from.
pub struct EntryModel {
    pub path: Seq<u8>,
    pub line: int,
}

/// One listing entry: a path and the 1-based line it stood on.
pub struct Entry {
    pub path: Vec<u8>,
    pub line: usize,
}

impl View for Entry {
    type V = EntryModel;

    open spec fn view(&self) -> EntryModel {
        EntryModel { path: self.path@, line: self.line as int }
    }
}

/// The entries of listing text `s`, read byte by byte: `cur` is the part of
/// the current line already consumed and `line` its 1-based number. Each line
/// is trimmed; blank lines are dropped.
pub open spec fn entries_rec(s: Seq<u8>, cur: Seq<u8>, line: int) -> Seq<EntryModel>
    decreases s.len(),
{
    if s.len() == 0 {
        if trimmed(cur).len() == 0 {
            Seq::empty()
        } else {
            seq![EntryModel { path: trimmed(cur), line }]
        }
    } else if s[0] == 10 {
        let rest = entries_rec(s.drop_first(), Seq::empty(), line + 1);
        if trimmed(cur).len() == 0 {
            rest
        } else {
            seq![EntryModel { path: trimmed(cur), line }] + rest
        }
    } else {
        entries_rec(s.drop_first(), cur.push(s[0]), line)
    }
}

/// The parsed entries of listing text `s`: one per non-blank line, trimmed,
/// with its 1-based line number.
pub open spec fn entries_of(s: Seq<u8>) -> Seq<EntryModel> {
    entries_rec(s, Seq::empty(), 1)
}

/// The entries made from a sequence of already-collected paths: each is
/// trimmed, blank ones are dropped, and the 1-based position (starting at
/// `line`) becomes the entry's line.
pub open spec fn path_entries_from(ps: Seq<Seq<u8>>, line: int) -> Seq<EntryModel>
    decreases ps.len(),
{
    if ps.len() == 0 {
        Seq::empty()
    } else {
        let rest = path_entries_from(ps.drop_first(), line + 1);
        if trimmed(ps[0]).len() == 0 {
            rest
        } else {
            seq![EntryModel { path: trimmed(ps[0]), line }] + rest
        }
    }
}

/// The entries made from collected paths, numbered from line 1.
pub open spec fn path_entries(ps: Seq<Seq<u8>>) -> Seq<EntryModel> {
    path_entries_from(ps, 1)
}

/// The listing rendered back to text: each path followed by a line feed.
pub open spec fn text_of(es: Seq<EntryModel>) -> Seq<u8>
    decreases es.len(),
{
    if es.len() == 0 {
        Seq::empty()
    } else {
        es[0].path + seq![10u8] + text_of(es.drop_first())
    }
}

/// An ordered, validated sequence of paths, one per listing line.
pub struct FileList {
    pub entries: Vec<Entry>,
}

impl View for FileList {
    type V = Seq<EntryModel>;

    open spec fn view(&self) -> Seq<EntryModel> {
        self.entries@.map_values(|e: Entry| e@)
    }
}

/// Every entry of a well-formed listing holds a non-empty, trimmed path on a
/// line numbered from 1.
pub open spec fn listing_wf(es: Seq<EntryModel>) -> bool {
    forall|i: int|
        0 <= i < es.len() ==> (#[trigger] es[i]).path.len() > 0 && trimmed(es[i].path) == es[i].path
            && es[i].line >= 1
}

/// The entry views of a pushed entry vector: the pushed view at the end.
proof fn lemma_entry_views_push(s: Seq<Entry>, e: Entry)
    ensures
        s.push(e).map_values(|x: Entry| x@) == s.map_values(|x: Entry| x@).push(e@),
{
    assert(s.push(e).map_values(|x: Entry| x@) =~= s.map_values(|x: Entry| x@).push(e@));
}

fn blank(b: u8) -> (r: bool)
    ensures
        r == is_blank(b),
{
    b == 32 || b == 9 || b == 13
}

/// A copy of `text[lo..hi]` with leading and trailing blanks removed.
fn trim_copy(text: &Vec<u8>, lo: usize, hi: usize) -> (r: Vec<u8>)
    requires
        lo <= hi <= text.len(),
    ensures
        r@ == trimmed(text@.subrange(lo as int, hi as int)),
{
    let ghost orig = text@.subrange(lo as int, hi as int);
    let mut a = lo;
    let mut b = hi;
    while a < b && blank(text[a])
        invariant
            lo <= a <= b,
            b == hi <= text.len(),
            trim_front(orig) == trim_front(text@.subrange(a as int, b as int)),
        decreases b - a,
    {
        proof {
            let cur = text@.subrange(a as int, b as int);
            assert(cur.drop_first() =~= text@.subrange(a + 1, b as int));
        }
        a = a + 1;
    }
    proof {
        let cur = text@.subrange(a as int, b as int);
        assert(trim_front(cur) == cur);
    }
    while a < b && blank(text[b - 1])
        invariant
            lo <= a <= b <= hi <= text.len(),
            trimmed(orig) == trim_back(text@.subrange(a as int, b as int)),
        decreases b - a,
    {
        proof {
            let cur = text@.subrange(a as int, b as int);
            assert(cur.drop_last() =~= text@.subrange(a as int, b - 1));
        }
        b = b - 1;
    }
    proof {
        let cur = text@.subrange(a as int, b as int);
        assert(trim_back(cur) == cur);
    }
    let mut r: Vec<u8> = Vec::new();
    let mut i = a;
    while i < b
        invariant
            a <= i <= b <= text.len(),
            r@ == text@.subrange(a as int, i as int),
        decreases b - i,
    {
        r.push(text[i]);
        i = i + 1;
        proof {
            assert(text@.subrange(a as int, i as int) =~= text@.subrange(
                a as int,
                i - 1,
            ).push(text@[i - 1]));
        }
    }
    proof {
        assert(r@ == text@.subrange(a as int, b as int));
    }
    r
}

/// An exact copy of the given bytes.
pub(crate) fn copy_bytes(v: &Vec<u8>) -> (r: Vec<u8>)
    ensures
        r@ == v@,
{
    let mut r: Vec<u8> = Vec::new();
    let mut i: usize = 0;
    while i < v.len()
        invariant
            i <= v.len(),
            r@ == v@.subrange(0, i as int),
        decreases v.len() - i,
    {
        r.push(v[i]);
        i = i + 1;
        proof {
            assert(v@.subrange(0, i as int) =~= v@.subrange(0, i - 1).push(v@[i - 1]));
        }
    }
    proof {
        assert(r@ =~= v@);
    }
    r
}

/// Whether two byte strings are equal.
pub(crate) fn bytes_eq(a: &Vec<u8>, b: &Vec<u8>) -> (r: bool)
    ensures
        r == (a@ == b@),
{
    if a.len() != b.len() {
        return false;
    }
    let mut i: usize = 0;
    while i < a.len()
        invariant
            i <= a.len() == b.len(),
            forall|j: int| 0 <= j < i ==> a@[j] == b@[j],
        decreases a.len() - i,
    {
        if a[i] != b[i] {
            return false;
        }
        i = i + 1;
    }
    proof {
        assert(a@ =~= b@);
    }
    true
}

impl FileList {
    /// Parse listing text: one path per line, each line trimmed, blank lines
    /// dropped. Fails with `EmptyInput` exactly when no path remains.
    ///
    /// The length bound is a machine limit: line numbers are counted in
    /// `usize`.
    pub fn parse_text(text: &Vec<u8>) -> (r: Result<FileList, Diagnostic>)
        requires
            text@.len() < usize::MAX,
        ensures
            r matches Ok(l) ==> l@ == entries_of(text@) && listing_wf(l@),
            r matches Err(d) ==> d is EmptyInput && entries_of(text@).len() == 0,
            entries_of(text@).len() == 0 ==> r is Err,
    {
        let n = text.len();
        let mut entries: Vec<Entry> = Vec::new();
        let mut i: usize = 0;
        let mut start: usize = 0;
        let mut line: usize = 1;
        proof {
            assert(text@.subrange(0, n as int) =~= text@);
            assert(text@.subrange(0, 0) =~= Seq::<u8>::empty());
            assert(entries@.map_values(|e: Entry| e@) =~= Seq::<EntryModel>::empty());
            assert(Seq::<EntryModel>::empty() + entries_of(text@) =~= entries_of(text@));
        }
        while i < n
            invariant
                start <= i <= n,
                n == text@.len(),
                n < usize::MAX,
                1 <= line,
                line <= start + 1,
                entries@.map_values(|e: Entry| e@) + entries_rec(
                    text@.subrange(i as int, n as int),
                    text@.subrange(start as int, i as int),
                    line as int,
                ) == entries_of(text@),
                listing_wf(entries@.map_values(|e: Entry| e@)),
            decreases n - i,
        {
            let ghost rest = text@.subrange(i as int, n as int);
            let ghost cur = text@.subrange(start as int, i as int);
            let ghost m0 = entries@.map_values(|e: Entry| e@);
            proof {
                assert(rest.len() > 0 && rest[0] == text@[i as int]);
                assert(rest.drop_first() =~= text@.subrange(i + 1, n as int));
            }
            if text[i] == 10 {
                let ghost tail = entries_rec(text@.subrange(i + 1, n as int), Seq::empty(),
                    line + 1);
                proof {
                    lemma_trimmed_idempotent(cur);
                }
                let seg = trim_copy(text, start, i);
                if seg.len() > 0 {
                    let ghost em = EntryModel { path: trimmed(cur), line: line as int };
                    proof {
                        lemma_entry_views_push(entries@, Entry { path: seg, line });
                    }
                    entries.push(Entry { path: seg, line });
                    proof {
                        assert(entries@.map_values(|e: Entry| e@) == m0.push(em));
                        assert(entries_rec(rest, cur, line as int) == seq![em] + tail);
                        assert(m0.push(em) + tail =~= m0 + (seq![em] + tail));
                    }
                } else {
                    proof {
                        assert(entries_rec(rest, cur, line as int) == tail);
                    }
                }
                i = i + 1;
                start = i;
                line = line + 1;
                proof {
                    assert(text@.subrange(start as int, i as int) =~= Seq::<u8>::empty());
                }
            } else {
                i = i + 1;
                proof {
                    assert(text@.subrange(start as int, i as int) =~= cur.push(rest[0]));
                    assert(entries_rec(rest, cur, line as int) == entries_rec(
                        rest.drop_first(),
                        cur.push(rest[0]),
                        line as int,
                    ));
                }
            }
        }
        let ghost cur = text@.subrange(start as int, i as int);
        let ghost m0 = entries@.map_values(|e: Entry| e@);
        proof {
            assert(text@.subrange(i as int, n as int) =~= Seq::<u8>::empty());
            lemma_trimmed_idempotent(cur);
        }
        let seg = trim_copy(text, start, n);
        if seg.len() > 0 {
            let ghost em = EntryModel { path: trimmed(cur), line: line as int };
            proof {
                lemma_entry_views_push(entries@, Entry { path: seg, line });
            }
            entries.push(Entry { path: seg, line });
            proof {
                assert(entries@.map_values(|e: Entry| e@) == m0.push(em));
                assert(entries_rec(Seq::<u8>::empty(), cur, line as int) == seq![em]);
                assert(m0.push(em) =~= m0 + seq![em]);
            }
        } else {
            proof {
                assert(entries_rec(Seq::<u8>::empty(), cur, line as int)
                    =~= Seq::<EntryModel>::empty());
                assert(m0 + Seq::<EntryModel>::empty() =~= m0);
            }
        }
        if entries.len() == 0 {
            proof {
                assert(entries_of(text@).len() == 0);
            }
            Err(Diagnostic::EmptyInput)
        } else {
            Ok(FileList { entries })
        }
    }

    /// Build a listing from already-collected paths (for instance a directory
    /// walk), in the given order: each path is trimmed, blank ones are
    /// dropped, and the 1-based position becomes the entry's line. Fails with
    /// `EmptyInput` exactly when nothing remains.
    pub fn from_paths(paths: &Vec<Vec<u8>>) -> (r: Result<FileList, Diagnostic>)
        ensures
            r matches Ok(l) ==> l@ == path_entries(paths@.map_values(|p: Vec<u8>| p@))
                && listing_wf(l@),
            r matches Err(d) ==> d is EmptyInput && path_entries(
                paths@.map_values(|p: Vec<u8>| p@),
            ).len() == 0,
            path_entries(paths@.map_values(|p: Vec<u8>| p@)).len() == 0 ==> r is Err,
    {
        let ghost ps = paths@.map_values(|p: Vec<u8>| p@);
        let n = paths.len();
        let mut entries: Vec<Entry> = Vec::new();
        let mut i: usize = 0;
        proof {
            assert(ps.subrange(0, n as int) =~= ps);
            assert(entries@.map_values(|e: Entry| e@) =~= Seq::<EntryModel>::empty());
            assert(Seq::<EntryModel>::empty() + path_entries(ps) =~= path_entries(ps));
        }
        while i < n
            invariant
                i <= n,
                n == ps.len(),
                n == paths@.len(),
                ps == paths@.map_values(|p: Vec<u8>| p@),
                entries@.map_values(|e: Entry| e@) + path_entries_from(
                    ps.subrange(i as int, n as int),
                    i + 1,
                ) == path_entries(ps),
                listing_wf(entries@.map_values(|e: Entry| e@)),
            decreases n - i,
        {
            let ghost rest = ps.subrange(i as int, n as int);
            let ghost m0 = entries@.map_values(|e: Entry| e@);
            let ghost tail = path_entries_from(ps.subrange(i + 1, n as int), i + 2);
            proof {
                assert(rest.drop_first() =~= ps.subrange(i + 1, n as int));
                assert(rest[0] == ps[i as int]);
            }
            let p = &paths[i];
            let seg = trim_copy(p, 0, p.len());
            proof {
                assert(p@.subrange(0, p@.len() as int) =~= p@);
                assert(p@ == ps[i as int]);
                lemma_trimmed_idempotent(p@);
                assert(path_entries_from(rest, i + 1) == (if trimmed(rest[0]).len() == 0 {
                    tail
                } else {
                    seq![EntryModel { path: trimmed(rest[0]), line: i + 1 }] + tail
                }));
            }
            if seg.len() > 0 {
                let ghost em = EntryModel { path: trimmed(p@), line: i + 1 };
                proof {
                    lemma_entry_views_push(entries@, Entry { path: seg, line: (i + 1) as usize });
                }
                entries.push(Entry { path: seg, line: i + 1 });
                proof {
                    assert(entries@.map_values(|e: Entry| e@) == m0.push(em));
                    assert(m0.push(em) + tail =~= m0 + (seq![em] + tail));
                }
            }
            i = i + 1;
        }
        proof {
            assert(ps.subrange(i as int, n as int) =~= Seq::<Seq<u8>>::empty());
            assert(path_entries_from(Seq::<Seq<u8>>::empty(), i + 1)
                =~= Seq::<EntryModel>::empty());
            assert(entries@.map_values(|e: Entry| e@) + Seq::<EntryModel>::empty()
                =~= entries@.map_values(|e: Entry| e@));
        }
        if entries.len() == 0 {
            Err(Diagnostic::EmptyInput)
        } else {
            Ok(FileList { entries })
        }
    }

    /// Render the listing back to text, one path per line, in order.
    pub fn as_text(&self) -> (r: Vec<u8>)
        ensures
            r@ == text_of(self@),
    {
        let mut r: Vec<u8> = Vec::new();
        let mut k: usize = 0;
        let n = self.entries.len();
        proof {
            assert(self@.subrange(0, n as int) =~= self@);
            assert(r@ =~= Seq::<u8>::empty());
            assert(Seq::<u8>::empty() + text_of(self@) =~= text_of(self@));
        }
        while k < n
            invariant
                k <= n,
                n == self@.len(),
                n == self.entries@.len(),
                text_of(self@) == r@ + text_of(self@.subrange(k as int, n as int)),
            decreases n - k,
        {
            let ghost rest = self@.subrange(k as int, n as int);
            proof {
                assert(rest.drop_first() =~= self@.subrange(k + 1, n as int));
                assert(rest[0] == self@[k as int]);
            }
            let p = &self.entries[k].path;
            let ghost tail = text_of(self@.subrange(k + 1, n as int));
            proof {
                assert(text_of(rest) == self@[k as int].path + seq![10u8] + tail);
                assert(text_of(self@) =~= r@ + p@.subrange(0, p@.len() as int) + seq![10u8]
                    + tail);
            }
            let mut j: usize = 0;
            while j < p.len()
                invariant
                    j <= p@.len(),
                    p@ == self@[k as int].path,
                    k < n == self@.len(),
                    text_of(self@) == r@ + p@.subrange(j as int, p@.len() as int) + seq![10u8]
                        + tail,
                decreases p@.len() - j,
            {
                r.push(p[j]);
                j = j + 1;
                proof {
                    assert(p@.subrange(j - 1, p@.len() as int) =~= seq![p@[j - 1]] + p@.subrange(
                        j as int,
                        p@.len() as int,
                    ));
                    assert(text_of(self@) =~= r@ + p@.subrange(j as int, p@.len() as int) + seq![
                        10u8,
                    ] + tail);
                }
            }
            r.push(10);
            k = k + 1;
            proof {
                assert(p@.subrange(p@.len() as int, p@.len() as int) =~= Seq::<u8>::empty());
                assert(text_of(self@) =~= r@ + text_of(self@.subrange(k as int, n as int)));
            }
        }
        proof {
            assert(self@.subrange(k as int, n as int) =~= Seq::<EntryModel>::empty());
            assert(r@ =~= text_of(self@));
        }
        r
    }

    /// Given, for each entry in order, whether its path exists on disk,
    /// report the first missing entry as `MissingPath` with its path and its
    /// 1-based line in the listing; succeed exactly when every path exists.
    pub fn confirm_files_exist(&self, exists: &Vec<bool>) -> (r: Result<(), Diagnostic>)
        requires
            exists@.len() == self@.len(),
        ensures
            r is Ok <==> (forall|i: int| 0 <= i < self@.len() ==> exists@[i]),
            r matches Err(d) ==> exists|i: int|
                0 <= i < self@.len() && !exists@[i] && (forall|j: int| 0 <= j < i ==> exists@[j])
                    && (d matches Diagnostic::MissingPath { path, line } && path@ == self@[i].path
                    && line as int == self@[i].line),
    {
        let mut i: usize = 0;
        let n = self.entries.len();
        while i < n
            invariant
                i <= n == self@.len(),
                n == self.entries@.len(),
                exists@.len() == self@.len(),
                forall|j: int| 0 <= j < i ==> exists@[j],
            decreases n - i,
        {
            if !exists[i] {
                let path = copy_bytes(&self.entries[i].path);
                let line = self.entries[i].line;
                return Err(Diagnostic::MissingPath { path, line });
            }
            i = i + 1;
        }
        Ok(())
    }
}

} // verus!
