//! The file list of the folder detail screen: the rows whose path contains
//! the search text (ignoring case), sorted by name, size or type, either
//! way, rows with equal keys keeping their order.

use vstd::prelude::*;
use vstd::utf8::encode_utf8;

verus! {

/// A file as the folder screen lists it.
pub struct FileRow {
    pub folder_id: String,
    pub path: String,
    pub size: u64,
    pub mime_type: Option<String>,
}

/// The value of a [`FileRow`].
pub struct FileRowV {
    pub folder_id: Seq<char>,
    pub path: Seq<char>,
    pub size: u64,
    pub mime_type: Option<Seq<char>>,
}

impl View for FileRow {
    type V = FileRowV;

    open spec fn view(&self) -> FileRowV {
        FileRowV {
            folder_id: self.folder_id@,
            path: self.path@,
            size: self.size,
            mime_type: match &self.mime_type {
                Some(m) => Some(m@),
                None => None,
            },
        }
    }
}

impl FileRow {
    /// A copy of the row.
    pub fn duplicate(&self) -> (res: FileRow)
        ensures
            res@ == self@,
    {
        FileRow {
            folder_id: self.folder_id.clone(),
            path: self.path.clone(),
            size: self.size,
            mime_type: match &self.mime_type {
                Some(m) => Some(m.clone()),
                None => None,
            },
        }
    }
}

/// The column the list is sorted by.
#[derive(Clone, Copy, PartialEq, Eq, Debug, Structural)]
pub enum SortField {
    Name,
    Size,
    Type,
}

/// The views of `rows`.
pub open spec fn row_views(rows: Seq<FileRow>) -> Seq<FileRowV> {
    rows.map_values(|r: FileRow| r@)
}

/// What `str::to_lowercase` gives for `s`.
pub uninterp spec fn lowercased(s: Seq<char>) -> Seq<char>;

/// `str::to_lowercase`: `s` with every character in lower case, which the
/// contract names without spelling out Unicode's case tables.
#[verifier::external_body]
fn to_lower(s: &str) -> (res: String)
    ensures
        res@ == lowercased(s@),
{
    s.to_lowercase()
}

/// `needle` occurs in `hay` as a run of consecutive bytes.
pub open spec fn has_sub(hay: Seq<u8>, needle: Seq<u8>) -> bool {
    exists|i: int| 0 <= i && i + needle.len() <= hay.len() && #[trigger] hay.subrange(i, i + needle.len()) == needle
}

/// A row is listed for search text `q` when `q` is empty or occurs in its
/// path, both in lower case.
pub open spec fn matches_query(r: FileRowV, q: Seq<char>) -> bool {
    q.len() == 0 || has_sub(encode_utf8(lowercased(r.path)), encode_utf8(lowercased(q)))
}

/// The rows of `rows`, in order, that search text `q` lists.
pub open spec fn filter_rows(rows: Seq<FileRowV>, q: Seq<char>) -> Seq<FileRowV>
    decreases rows.len(),
{
    if rows.len() == 0 {
        Seq::empty()
    } else if matches_query(rows.last(), q) {
        filter_rows(rows.drop_last(), q).push(rows.last())
    } else {
        filter_rows(rows.drop_last(), q)
    }
}

/// Byte strings in dictionary order: `a` before `b`.
pub open spec fn lex_lt(a: Seq<u8>, b: Seq<u8>) -> bool
    decreases a.len(),
{
    if b.len() == 0 {
        false
    } else if a.len() == 0 {
        true
    } else if a[0] != b[0] {
        a[0] < b[0]
    } else {
        lex_lt(a.drop_first(), b.drop_first())
    }
}

/// The bytes a row's type sorts by: its MIME type, or nothing.
pub open spec fn type_bytes(r: FileRowV) -> Seq<u8> {
    match r.mime_type {
        Some(m) => encode_utf8(m),
        None => Seq::empty(),
    }
}

/// `a`'s key is below `b`'s for column `f`.
pub open spec fn key_lt(a: FileRowV, b: FileRowV, f: SortField) -> bool {
    match f {
        SortField::Name => lex_lt(encode_utf8(a.path), encode_utf8(b.path)),
        SortField::Size => a.size < b.size,
        SortField::Type => lex_lt(type_bytes(a), type_bytes(b)),
    }
}

/// `a` and `b` have the same key for column `f`.
pub open spec fn same_key(a: FileRowV, b: FileRowV, f: SortField) -> bool {
    match f {
        SortField::Name => encode_utf8(a.path) == encode_utf8(b.path),
        SortField::Size => a.size == b.size,
        SortField::Type => type_bytes(a) == type_bytes(b),
    }
}

/// `a` must come before `b`: its key is lower, or higher when descending.
pub open spec fn goes_before(a: FileRowV, b: FileRowV, f: SortField, ascending: bool) -> bool {
    if ascending {
        key_lt(a, b, f)
    } else {
        key_lt(b, a, f)
    }
}

/// `p` lists each of `0..n` once.
pub open spec fn is_perm(p: Seq<int>, n: nat) -> bool {
    &&& p.len() == n
    &&& forall|k: int| 0 <= k < p.len() ==> 0 <= #[trigger] p[k] < n
    &&& forall|i: int, j: int| 0 <= i < j < p.len() ==> p[i] != p[j]
}

/// `out` is `s` sorted on column `f` in the given direction, rows with the
/// same key keeping the order they have in `s`.
pub open spec fn sorted_by(s: Seq<FileRowV>, f: SortField, ascending: bool, out: Seq<FileRowV>) -> bool {
    exists|p: Seq<int>|
        {
            &&& is_perm(p, s.len())
            &&& out.len() == s.len()
            &&& forall|k: int| 0 <= k < out.len() ==> #[trigger] out[k] == s[p[k]]
            &&& forall|i: int, j: int|
                0 <= i < j < out.len() ==> !goes_before(#[trigger] out[j], #[trigger] out[i], f, ascending) && (
                same_key(out[i], out[j], f) ==> p[i] < p[j])
        }
}

proof fn lemma_lex_facts(a: Seq<u8>, b: Seq<u8>)
    ensures
        !(lex_lt(a, b) && lex_lt(b, a)),
        lex_lt(a, b) || lex_lt(b, a) || a == b,
        !lex_lt(a, a),
    decreases a.len(),
{
    if a.len() > 0 && b.len() > 0 && a[0] == b[0] {
        lemma_lex_facts(a.drop_first(), b.drop_first());
        if a.drop_first() == b.drop_first() {
            assert(a =~= seq![a[0]] + a.drop_first());
            assert(b =~= seq![b[0]] + b.drop_first());
        }
    }
    if a.len() > 0 {
        lemma_lex_facts(a.drop_first(), a.drop_first());
    }
    if a.len() == 0 && b.len() == 0 {
        assert(a =~= b);
    }
}

proof fn lemma_lex_trans(a: Seq<u8>, b: Seq<u8>, c: Seq<u8>)
    requires
        lex_lt(a, b),
        lex_lt(b, c),
    ensures
        lex_lt(a, c),
    decreases a.len(),
{
    if a.len() > 0 && a[0] == b[0] && b[0] == c[0] {
        lemma_lex_trans(a.drop_first(), b.drop_first(), c.drop_first());
    }
}

/// Keys of one column are totally ordered.
proof fn lemma_key_order(a: FileRowV, b: FileRowV, c: FileRowV, f: SortField)
    ensures
        !key_lt(a, a, f),
        key_lt(a, b, f) ==> !key_lt(b, a, f) && !same_key(a, b, f),
        key_lt(a, b, f) || key_lt(b, a, f) || same_key(a, b, f),
        key_lt(a, b, f) && key_lt(b, c, f) ==> key_lt(a, c, f),
        same_key(a, b, f) && key_lt(b, c, f) ==> key_lt(a, c, f),
        key_lt(a, b, f) && same_key(b, c, f) ==> key_lt(a, c, f),
{
    match f {
        SortField::Name => {
            let (x, y, z) = (encode_utf8(a.path), encode_utf8(b.path), encode_utf8(c.path));
            lemma_lex_facts(x, y);
            lemma_lex_facts(x, x);
            if lex_lt(x, y) && lex_lt(y, z) {
                lemma_lex_trans(x, y, z);
            }
        },
        SortField::Size => {},
        SortField::Type => {
            let (x, y, z) = (type_bytes(a), type_bytes(b), type_bytes(c));
            lemma_lex_facts(x, y);
            lemma_lex_facts(x, x);
            if lex_lt(x, y) && lex_lt(y, z) {
                lemma_lex_trans(x, y, z);
            }
        },
    }
}

/// Whether `a` comes before `b` in dictionary order.
fn lex_less(a: &[u8], b: &[u8]) -> (res: bool)
    ensures
        res == lex_lt(a@, b@),
{
    let mut i: usize = 0;
    assert(a@.skip(0) =~= a@ && b@.skip(0) =~= b@);
    while i < a.len() && i < b.len()
        invariant
            i <= a@.len(),
            i <= b@.len(),
            lex_lt(a@, b@) == lex_lt(a@.skip(i as int), b@.skip(i as int)),
        decreases a@.len() - i,
    {
        assert(a@.skip(i as int)[0] == a@[i as int]);
        assert(b@.skip(i as int)[0] == b@[i as int]);
        if a[i] != b[i] {
            return a[i] < b[i];
        }
        assert(a@.skip(i as int).drop_first() =~= a@.skip(i + 1));
        assert(b@.skip(i as int).drop_first() =~= b@.skip(i + 1));
        i = i + 1;
    }
    i < b.len()
}

/// Whether `needle` occurs in `hay`.
fn contains_bytes(hay: &[u8], needle: &[u8]) -> (res: bool)
    ensures
        res == has_sub(hay@, needle@),
{
    if needle.len() > hay.len() {
        return false;
    }
    let n = needle.len();
    let mut i: usize = 0;
    while i <= hay.len() - n
        invariant
            n == needle@.len(),
            n <= hay@.len(),
            i <= hay@.len() - n + 1,
            forall|k: int| 0 <= k < i ==> #[trigger] hay@.subrange(k, k + n) != needle@,
        decreases hay@.len() - i,
    {
        let mut j: usize = 0;
        let mut same = true;
        while j < n
            invariant
                n == needle@.len(),
                i + n <= hay.len(),
                j <= n,
                same == forall|m: int| 0 <= m < j ==> hay@[i + m] == needle@[m],
            decreases n - j,
        {
            if hay[i + j] != needle[j] {
                same = false;
            }
            j = j + 1;
        }
        if same {
            assert(hay@.subrange(i as int, i + n) =~= needle@);
            return true;
        }
        assert(hay@.subrange(i as int, i + n) != needle@) by {
            let m = choose|m: int| 0 <= m < n && hay@[i + m] != needle@[m];
            assert(hay@.subrange(i as int, i + n)[m] == hay@[i + m]);
        }
        i = i + 1;
    }
    assert forall|k: int| 0 <= k && k + n <= hay@.len() implies #[trigger] hay@.subrange(k, k + n) != needle@ by {
        assert(k < i);
    }
    false
}

/// Whether search text `q`, already in lower case as `lq`, lists `r`.
fn row_matches(r: &FileRow, q: &str, lq: &String) -> (res: bool)
    requires
        lq@ == lowercased(q@),
    ensures
        res == matches_query(r@, q@),
{
    if q.unicode_len() == 0 {
        return true;
    }
    let lp = to_lower(r.path.as_str());
    contains_bytes(lp.as_str().as_bytes(), lq.as_str().as_bytes())
}

/// Whether `a` must come before `b`.
fn row_before(a: &FileRow, b: &FileRow, f: SortField, ascending: bool) -> (res: bool)
    ensures
        res == goes_before(a@, b@, f, ascending),
{
    let (x, y) = if ascending {
        (a, b)
    } else {
        (b, a)
    };
    match f {
        SortField::Name => lex_less(x.path.as_str().as_bytes(), y.path.as_str().as_bytes()),
        SortField::Size => x.size < y.size,
        SortField::Type => {
            let e: Vec<u8> = Vec::new();
            let xs: &[u8] = match &x.mime_type {
                Some(m) => m.as_str().as_bytes(),
                None => e.as_slice(),
            };
            let ys: &[u8] = match &y.mime_type {
                Some(m) => m.as_str().as_bytes(),
                None => e.as_slice(),
            };
            assert(e@ =~= Seq::<u8>::empty());
            lex_less(xs, ys)
        },
    }
}

/// The rows whose path contains `query` (ignoring case; every row when
/// `query` is empty), sorted by column `field`, ascending or descending,
/// rows with the same key keeping their order.
pub fn folder_rows(rows: &Vec<FileRow>, query: &str, field: SortField, ascending: bool) -> (res: Vec<FileRow>)
    ensures
        sorted_by(filter_rows(row_views(rows@), query@), field, ascending, row_views(res@)),
{
    let lq = to_lower(query);
    let mut kept: Vec<FileRow> = Vec::new();
    let mut i: usize = 0;
    while i < rows.len()
        invariant
            i <= rows@.len(),
            lq@ == lowercased(query@),
            row_views(kept@) == filter_rows(row_views(rows@).take(i as int), query@),
        decreases rows@.len() - i,
    {
        let ghost before = kept@;
        assert(row_views(rows@).take(i + 1).drop_last() =~= row_views(rows@).take(i as int));
        assert(row_views(rows@).take(i + 1).last() == rows@[i as int]@);
        if row_matches(&rows[i], query, &lq) {
            kept.push(rows[i].duplicate());
            assert(row_views(kept@) =~= row_views(before).push(rows@[i as int]@));
        }
        i = i + 1;
    }
    assert(row_views(rows@).take(rows@.len() as int) =~= row_views(rows@));
    let ghost s = row_views(kept@);
    let n = kept.len();
    let mut ix: Vec<usize> = Vec::new();
    let mut i: usize = 0;
    while i < n
        invariant
            n == kept@.len(),
            s == row_views(kept@),
            i <= n,
            ix@.len() == i,
            forall|k: int| 0 <= k < ix@.len() ==> #[trigger] ix@[k] < i,
            forall|a: int, b: int| 0 <= a < b < ix@.len() ==> ix@[a] != ix@[b],
            forall|a: int, b: int|
                0 <= a < b < ix@.len() ==> !goes_before(
                    #[trigger] s[ix@[b] as int],
                    #[trigger] s[ix@[a] as int],
                    field,
                    ascending,
                ) && (same_key(s[ix@[a] as int], s[ix@[b] as int], field) ==> ix@[a] < ix@[b]),
        decreases n - i,
    {
        let mut pos: usize = 0;
        while pos < ix.len() && !row_before(&kept[i], &kept[ix[pos]], field, ascending)
            invariant
                n == kept@.len(),
                s == row_views(kept@),
                i < n,
                pos <= ix@.len(),
                forall|k: int| 0 <= k < ix@.len() ==> #[trigger] ix@[k] < i,
                forall|k: int| 0 <= k < pos ==> !goes_before(s[i as int], #[trigger] s[ix@[k] as int], field, ascending),
            decreases ix@.len() - pos,
        {
            pos = pos + 1;
        }
        let ghost old_ix = ix@;
        ix.insert(pos, i);
        proof {
            let e = s[i as int];
            assert(ix@ =~= old_ix.subrange(0, pos as int).push(i).add(old_ix.subrange(pos as int, old_ix.len() as int)));
            assert forall|k: int| 0 <= k < ix@.len() implies #[trigger] ix@[k] < i + 1 by {
                if k < pos {
                    assert(ix@[k] == old_ix[k]);
                } else if k > pos {
                    assert(ix@[k] == old_ix[k - 1]);
                }
            }
            assert forall|a: int, b: int| 0 <= a < b < ix@.len() implies ix@[a] != ix@[b] by {
                if a != pos as int && b != pos as int {
                    let oa = if a < pos { a } else { a - 1 };
                    let ob = if b < pos { b } else { b - 1 };
                    assert(ix@[a] == old_ix[oa] && ix@[b] == old_ix[ob]);
                } else if a == pos as int {
                    assert(ix@[b] == old_ix[b - 1]);
                } else {
                    assert(ix@[a] == old_ix[a]);
                }
            }
            assert forall|a: int, b: int| 0 <= a < b < ix@.len() implies !goes_before(
                #[trigger] s[ix@[b] as int],
                #[trigger] s[ix@[a] as int],
                field,
                ascending,
            ) && (same_key(s[ix@[a] as int], s[ix@[b] as int], field) ==> ix@[a] < ix@[b]) by {
                let oa = if a < pos { a } else { a - 1 };
                let ob = if b < pos { b } else { b - 1 };
                if a != pos as int && b != pos as int {
                    assert(ix@[a] == old_ix[oa] && ix@[b] == old_ix[ob]);
                } else if a == pos as int {
                    let y = s[ix@[b] as int];
                    assert(ix@[b] == old_ix[ob]);
                    let first = s[old_ix[pos as int] as int];
                    assert(goes_before(e, first, field, ascending));
                    if ob > pos {
                        assert(!goes_before(y, first, field, ascending));
                    }
                    lemma_key_order(e, first, y, field);
                    lemma_key_order(y, first, e, field);
                    lemma_key_order(first, y, e, field);
                    lemma_key_order(e, y, first, field);
                    lemma_key_order(y, e, first, field);
                    lemma_key_order(first, e, y, field);
                } else {
                    assert(ix@[a] == old_ix[oa]);
                    let x = s[old_ix[oa] as int];
                    assert(!goes_before(e, x, field, ascending));
                }
            }
        }
        i = i + 1;
    }
    let mut out: Vec<FileRow> = Vec::new();
    let mut k: usize = 0;
    while k < n
        invariant
            n == kept@.len(),
            s == row_views(kept@),
            ix@.len() == n,
            forall|m: int| 0 <= m < ix@.len() ==> #[trigger] ix@[m] < n,
            k <= n,
            out@.len() == k,
            forall|m: int| 0 <= m < k ==> #[trigger] out@[m]@ == s[ix@[m] as int],
        decreases n - k,
    {
        out.push(kept[ix[k]].duplicate());
        k = k + 1;
    }
    proof {
        let p = ix@.map_values(|x: usize| x as int);
        let o = row_views(out@);
        assert(is_perm(p, s.len()));
        assert forall|m: int| 0 <= m < o.len() implies #[trigger] o[m] == s[p[m]] by {
            assert(o[m] == out@[m]@);
        }
        assert forall|a: int, b: int| 0 <= a < b < o.len() implies !goes_before(#[trigger] o[b], #[trigger] o[a], field, ascending)
            && (same_key(o[a], o[b], field) ==> p[a] < p[b]) by {
            assert(o[a] == s[ix@[a] as int]);
            assert(o[b] == s[ix@[b] as int]);
        }
    }
    out
}

} // verus!
