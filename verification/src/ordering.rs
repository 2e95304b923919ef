// The order a listing's rows are shown in when the client asks for one: a key, a direction, and
// whether folders or kinds are grouped ahead of it.
use crate::text::{chars_of, starts_with};
use vstd::prelude::*;

verus! {

/// What a refused key is answered with.
pub const NO_SUCH_KEY: &'static str = "no such sort key; send name, size, mtime or kind";

/// The kind every folder has, whatever its name says.
pub const DIRECTORY: &'static str = "inode/directory";

/// The kind of a file the MIME table has no entry for.
pub const OCTET_STREAM: &'static str = "application/octet-stream";

#[derive(Clone, Copy, Debug, PartialEq, Eq, Structural)]
pub enum SortBy {
    Name,
    Size,
    Mtime,
    Kind,
}

/// The four keys a client may send, and `date`, which older clients send for `mtime`.
pub open spec fn key_of(by: Seq<char>) -> Option<SortBy> {
    if by == "name"@ {
        Some(SortBy::Name)
    } else if by == "size"@ {
        Some(SortBy::Size)
    } else if by == "mtime"@ || by == "date"@ {
        Some(SortBy::Mtime)
    } else if by == "kind"@ {
        Some(SortBy::Kind)
    } else {
        None
    }
}

fn same(a: &str, b: &str) -> (r: bool)
    ensures
        r == (a@ == b@),
{
    let x = chars_of(a);
    let y = chars_of(b);
    assert(x@.subrange(0, x.len() as int) =~= x@);
    crate::text::range_eq(&x, 0, x.len(), &y)
}

/// Sample input: "date", which reads as mtime.
pub fn sort_key(by: &str) -> (r: Result<SortBy, &'static str>)
    ensures
        match r {
            Ok(k) => key_of(by@) == Some(k),
            Err(e) => key_of(by@) is None && e@ == NO_SUCH_KEY@,
        },
{
    if same(by, "name") {
        Ok(SortBy::Name)
    } else if same(by, "size") {
        Ok(SortBy::Size)
    } else if same(by, "mtime") || same(by, "date") {
        Ok(SortBy::Mtime)
    } else if same(by, "kind") {
        Ok(SortBy::Kind)
    } else {
        Err(NO_SUCH_KEY)
    }
}

/// How a listing is to be ordered.
#[derive(Clone, Copy, Debug, PartialEq, Eq, Structural)]
pub struct Order {
    pub by: SortBy,
    pub desc: bool,
    pub folders: bool,
    pub groups: bool,
}

/// The default order, folders first by any key but kind and no kind groups, is the listing's own
/// shipped sort; every other order is worked out here.
pub open spec fn shipped(o: Order) -> bool {
    o.by != SortBy::Kind && o.folders && !o.groups
}

pub fn takes_shipped_sort(o: Order) -> (r: bool)
    ensures
        r == shipped(o),
{
    o.by != SortBy::Kind && o.folders && !o.groups
}

/// What the order reads of one row: its place in name order, whether it is a folder, the MIME type
/// the table gives its name, its size and modification time, and for a folder the size its walk found.
pub struct Row {
    pub name_rank: u64,
    pub dir: bool,
    pub mime: Option<String>,
    pub size: u64,
    pub mtime: i64,
    pub walked: u64,
}

pub open spec fn kind_text(r: Row) -> Seq<char> {
    if r.dir {
        DIRECTORY@
    } else {
        match r.mime {
            Some(m) => m@,
            None => OCTET_STREAM@,
        }
    }
}

/// Folders, then images, then everything else.
pub open spec fn rank_of(r: Row) -> int {
    if r.dir {
        0
    } else if starts_with(kind_text(r), "image/"@) {
        1
    } else {
        2
    }
}

/// A folder orders by its walked size, the number the size column shows for it.
pub open spec fn size_key(r: Row) -> int {
    if r.dir {
        r.walked as int
    } else {
        r.size as int
    }
}

pub open spec fn three_way(a: int, b: int) -> int {
    if a < b {
        -1
    } else if a > b {
        1
    } else {
        0
    }
}

/// Text compared character by character, as `str` compares.
pub open spec fn text_order(a: Seq<char>, b: Seq<char>) -> int
    decreases a.len(),
{
    if a.len() == 0 {
        if b.len() == 0 {
            0
        } else {
            -1
        }
    } else if b.len() == 0 {
        1
    } else if a[0] != b[0] {
        three_way(a[0] as int, b[0] as int)
    } else {
        text_order(a.drop_first(), b.drop_first())
    }
}

pub open spec fn group_order(x: Row, y: Row, o: Order) -> int {
    if o.groups {
        three_way(rank_of(x), rank_of(y))
    } else if o.folders {
        three_way(if y.dir { 1int } else { 0int }, if x.dir { 1int } else { 0int })
    } else {
        0
    }
}

pub open spec fn key_order(x: Row, y: Row, by: SortBy) -> int {
    match by {
        SortBy::Kind => text_order(kind_text(x), kind_text(y)),
        SortBy::Size => three_way(size_key(x), size_key(y)),
        SortBy::Mtime => three_way(x.mtime as int, y.mtime as int),
        SortBy::Name => 0,
    }
}

/// The group decides first; then the key, then the name, both turned round for a descending order.
pub open spec fn row_order(x: Row, y: Row, o: Order) -> int {
    let g = group_order(x, y, o);
    if g != 0 {
        g
    } else {
        let k = key_order(x, y, o.by);
        let n = if k != 0 {
            k
        } else {
            three_way(x.name_rank as int, y.name_rank as int)
        };
        if o.desc {
            -n
        } else {
            n
        }
    }
}

/// Row `a` is shown before row `b`: it orders first, or the two tie and `a` was first already.
pub open spec fn goes_before(rows: Seq<Row>, a: int, b: int, o: Order) -> bool {
    let c = row_order(rows[a], rows[b], o);
    c < 0 || (c == 0 && a < b)
}

/// `order` shows every row once, each row before the ones it goes before.
pub open spec fn is_order(rows: Seq<Row>, order: Seq<usize>, o: Order) -> bool {
    &&& order.len() == rows.len()
    &&& forall|k: int| 0 <= k < order.len() ==> order[k] < rows.len()
    &&& forall|i: int, j: int| 0 <= i < j < order.len() ==> order[i] != order[j]
    &&& forall|i: int, j: int|
        0 <= i < j < order.len() ==> goes_before(rows, order[i] as int, order[j] as int, o)
}

proof fn lemma_text_antisym(a: Seq<char>, b: Seq<char>)
    ensures
        text_order(a, b) == -text_order(b, a),
        -1 <= text_order(a, b) <= 1,
        text_order(a, b) == 0 ==> a == b,
    decreases a.len(),
{
    if a.len() > 0 && b.len() > 0 && a[0] == b[0] {
        lemma_text_antisym(a.drop_first(), b.drop_first());
        if text_order(a, b) == 0 {
            assert(a =~= seq![a[0]] + a.drop_first());
            assert(b =~= seq![b[0]] + b.drop_first());
        }
    }
    if a.len() == 0 && b.len() == 0 {
        assert(a =~= b);
    }
}

proof fn lemma_text_trans(a: Seq<char>, b: Seq<char>, c: Seq<char>)
    requires
        text_order(a, b) <= 0,
        text_order(b, c) <= 0,
    ensures
        text_order(a, c) <= 0,
    decreases a.len(),
{
    if a.len() > 0 && b.len() > 0 && c.len() > 0 && a[0] == b[0] && b[0] == c[0] {
        lemma_text_trans(a.drop_first(), b.drop_first(), c.drop_first());
    }
}

proof fn lemma_text_strict(a: Seq<char>, b: Seq<char>, c: Seq<char>)
    requires
        text_order(a, b) <= 0,
        text_order(b, c) <= 0,
        text_order(a, b) < 0 || text_order(b, c) < 0,
    ensures
        text_order(a, c) < 0,
{
    lemma_text_trans(a, b, c);
    lemma_text_antisym(a, b);
    lemma_text_antisym(b, c);
    lemma_text_antisym(a, c);
}

proof fn lemma_key(x: Row, y: Row, z: Row, by: SortBy)
    ensures
        key_order(x, y, by) == -key_order(y, x, by),
        -1 <= key_order(x, y, by) <= 1,
        key_order(x, y, by) <= 0 && key_order(y, z, by) <= 0 ==> key_order(x, z, by) <= 0,
        key_order(x, y, by) <= 0 && key_order(y, z, by) <= 0 && (key_order(x, y, by) < 0 || key_order(y, z, by)
            < 0) ==> key_order(x, z, by) < 0,
{
    if by == SortBy::Kind {
        lemma_text_antisym(kind_text(x), kind_text(y));
        if key_order(x, y, by) <= 0 && key_order(y, z, by) <= 0 {
            lemma_text_trans(kind_text(x), kind_text(y), kind_text(z));
            if key_order(x, y, by) < 0 || key_order(y, z, by) < 0 {
                lemma_text_strict(kind_text(x), kind_text(y), kind_text(z));
            }
        }
    }
}

/// The row comparison is antisymmetric and transitive, strictly so when either step is strict.
proof fn lemma_row(x: Row, y: Row, z: Row, o: Order)
    ensures
        row_order(x, y, o) == -row_order(y, x, o),
        -1 <= row_order(x, y, o) <= 1,
        row_order(x, y, o) <= 0 && row_order(y, z, o) <= 0 ==> row_order(x, z, o) <= 0,
        row_order(x, y, o) <= 0 && row_order(y, z, o) <= 0 && (row_order(x, y, o) < 0 || row_order(y, z, o) < 0)
            ==> row_order(x, z, o) < 0,
{
    lemma_key(x, y, z, o.by);
    lemma_key(y, x, z, o.by);
    lemma_key(x, z, y, o.by);
    lemma_key(z, x, y, o.by);
    lemma_key(y, z, x, o.by);
    lemma_key(z, y, x, o.by);
}



fn kind_chars(r: &Row) -> (v: Vec<char>)
    ensures
        v@ == kind_text(*r),
{
    if r.dir {
        chars_of(DIRECTORY)
    } else {
        match &r.mime {
            Some(m) => chars_of(m.as_str()),
            None => chars_of(OCTET_STREAM),
        }
    }
}

fn text_order_of(a: &Vec<char>, b: &Vec<char>) -> (r: i8)
    ensures
        r as int == text_order(a@, b@),
{
    let mut i: usize = 0;
    assert(a@.skip(0) =~= a@);
    assert(b@.skip(0) =~= b@);
    while i < a.len() && i < b.len()
        invariant
            i <= a.len(),
            i <= b.len(),
            text_order(a@, b@) == text_order(a@.skip(i as int), b@.skip(i as int)),
        decreases a.len() - i,
    {
        let x = a[i];
        let y = b[i];
        if x != y {
            assert(a@.skip(i as int)[0] == x);
            assert(b@.skip(i as int)[0] == y);
            return if x < y {
                -1
            } else {
                1
            };
        }
        assert(a@.skip(i as int).drop_first() =~= a@.skip(i + 1));
        assert(b@.skip(i as int).drop_first() =~= b@.skip(i + 1));
        i = i + 1;
    }
    if i < a.len() {
        1
    } else if i < b.len() {
        -1
    } else {
        0
    }
}

fn int_order(a: i128, b: i128) -> (r: i8)
    ensures
        r as int == three_way(a as int, b as int),
{
    if a < b {
        -1
    } else if a > b {
        1
    } else {
        0
    }
}

/// Sample input: a folder, or "image/png", or "text/plain", which rank 0, 1 and 2.
pub fn group_rank(directory: bool, mime: &str) -> (r: u8)
    ensures
        r as int == (if directory {
            0int
        } else if starts_with(mime@, "image/"@) {
            1int
        } else {
            2int
        }),
{
    if directory {
        return 0;
    }
    let v = chars_of(mime);
    let p = chars_of("image/");
    assert(v@.subrange(0, v.len() as int) =~= v@);
    if crate::text::has_at(&v, 0, v.len(), &p) {
        1
    } else {
        2
    }
}

fn rank(r: &Row, kind: &Vec<char>) -> (k: u8)
    requires
        kind@ == kind_text(*r),
    ensures
        k as int == rank_of(*r),
{
    if r.dir {
        return 0;
    }
    let p = chars_of("image/");
    assert(kind@.subrange(0, kind.len() as int) =~= kind@);
    if crate::text::has_at(kind, 0, kind.len(), &p) {
        1
    } else {
        2
    }
}

fn compare_rows(x: &Row, kx: &Vec<char>, y: &Row, ky: &Vec<char>, o: Order) -> (r: i8)
    requires
        kx@ == kind_text(*x),
        ky@ == kind_text(*y),
    ensures
        r as int == row_order(*x, *y, o),
{
    let g: i8 = if o.groups {
        int_order(rank(x, kx) as i128, rank(y, ky) as i128)
    } else if o.folders {
        int_order(
            if y.dir {
                1
            } else {
                0
            },
            if x.dir {
                1
            } else {
                0
            },
        )
    } else {
        0
    };
    if g != 0 {
        return g;
    }
    let k: i8 = match o.by {
        SortBy::Kind => text_order_of(kx, ky),
        SortBy::Size => {
            let a: u64 = if x.dir {
                x.walked
            } else {
                x.size
            };
            let b: u64 = if y.dir {
                y.walked
            } else {
                y.size
            };
            int_order(a as i128, b as i128)
        },
        SortBy::Mtime => int_order(x.mtime as i128, y.mtime as i128),
        SortBy::Name => 0,
    };
    proof {
        lemma_row(*x, *y, *y, o);
    }
    let n: i8 = if k != 0 {
        k
    } else {
        int_order(x.name_rank as i128, y.name_rank as i128)
    };
    if o.desc {
        -n
    } else {
        n
    }
}

/// Sample input: a folder "z-folder", "b.txt" and "c.jpg" by name with folders first give the folder,
/// then b.txt, then c.jpg.
pub fn ordered(rows: &[Row], o: Order) -> (order: Vec<usize>)
    ensures
        is_order(rows@, order@, o),
{
    let mut kinds: Vec<Vec<char>> = Vec::new();
    let mut i: usize = 0;
    while i < rows.len()
        invariant
            i <= rows.len(),
            kinds.len() == i,
            forall|k: int| 0 <= k < i ==> (#[trigger] kinds@[k])@ == kind_text(rows@[k]),
        decreases rows.len() - i,
    {
        kinds.push(kind_chars(&rows[i]));
        i = i + 1;
    }
    let mut order: Vec<usize> = Vec::new();
    let mut i: usize = 0;
    while i < rows.len()
        invariant
            i <= rows.len(),
            kinds.len() == rows.len(),
            forall|k: int| 0 <= k < rows.len() ==> (#[trigger] kinds@[k])@ == kind_text(rows@[k]),
            order.len() == i,
            forall|k: int| 0 <= k < order.len() ==> order@[k] < i,
            forall|a: int, b: int| 0 <= a < b < order.len() ==> order@[a] != order@[b],
            forall|a: int, b: int|
                0 <= a < b < order.len() ==> goes_before(rows@, order@[a] as int, order@[b] as int, o),
        decreases rows.len() - i,
    {
        let mut p: usize = 0;
        let mut found = false;
        while !found && p < order.len()
            invariant
                i < rows.len(),
                kinds.len() == rows.len(),
                forall|k: int| 0 <= k < rows.len() ==> (#[trigger] kinds@[k])@ == kind_text(rows@[k]),
                order.len() == i,
                p <= order.len(),
                forall|k: int| 0 <= k < order.len() ==> order@[k] < i,
                forall|k: int| 0 <= k < p ==> row_order(rows@[i as int], rows@[order@[k] as int], o) >= 0,
                found ==> p < order.len() && row_order(rows@[i as int], rows@[order@[p as int] as int], o) < 0,
            decreases order.len() - p, (if found { 0int } else { 1int }),
        {
            let j = order[p];
            if compare_rows(&rows[i], &kinds[i], &rows[j], &kinds[j], o) < 0 {
                found = true;
            } else {
                p = p + 1;
            }
        }
        let ghost earlier = order@;
        order.insert(p, i);
        proof {
            lemma_insert_keeps_order(rows@, earlier, order@, i as int, p as int, o);
        }
        i = i + 1;
    }
    order
}

proof fn lemma_insert_keeps_order(rows: Seq<Row>, order: Seq<usize>, next: Seq<usize>, i: int, p: int, o: Order)
    requires
        next == order.insert(p, i as usize),
        0 <= i < rows.len(),
        i <= usize::MAX,
        0 <= p <= order.len(),
        forall|k: int| 0 <= k < order.len() ==> order[k] < i,
        forall|a: int, b: int| 0 <= a < b < order.len() ==> order[a] != order[b],
        forall|a: int, b: int| 0 <= a < b < order.len() ==> goes_before(rows, order[a] as int, order[b] as int, o),
        forall|k: int| 0 <= k < p ==> row_order(rows[i], rows[order[k] as int], o) >= 0,
        p < order.len() ==> row_order(rows[i], rows[order[p] as int], o) < 0,
    ensures
        forall|k: int| 0 <= k < next.len() ==> next[k] <= i,
        forall|a: int, b: int| 0 <= a < b < next.len() ==> next[a] != next[b],
        forall|a: int, b: int| 0 <= a < b < next.len() ==> goes_before(rows, next[a] as int, next[b] as int, o),
{
    assert forall|a: int, b: int| 0 <= a < b < next.len() implies goes_before(
        rows,
        next[a] as int,
        next[b] as int,
        o,
    ) by {
        if a == p {
            let m = b - 1;
            assert(next[b] == order[m]);
            if m == p {
            } else {
                assert(goes_before(rows, order[p] as int, order[m] as int, o));
                lemma_row(rows[i], rows[order[p] as int], rows[order[m] as int], o);
            }
        } else if b == p {
            assert(next[a] == order[a]);
            lemma_row(rows[i], rows[order[a] as int], rows[order[a] as int], o);
        } else {
            let a2 = if a < p { a } else { a - 1 };
            let b2 = if b < p { b } else { b - 1 };
            assert(next[a] == order[a2]);
            assert(next[b] == order[b2]);
        }
    }
}

/// Items put in the order worked out for their rows.
pub fn in_order<T: Copy>(items: &[T], order: &[usize]) -> (r: Vec<T>)
    requires
        forall|k: int| 0 <= k < order.len() ==> order[k] < items.len(),
    ensures
        r@.len() == order@.len(),
        forall|k: int| 0 <= k < order.len() ==> r@[k] == items@[order[k] as int],
{
    let mut r: Vec<T> = Vec::new();
    let mut k: usize = 0;
    while k < order.len()
        invariant
            k <= order.len(),
            forall|j: int| 0 <= j < order.len() ==> order[j] < items.len(),
            r@.len() == k,
            forall|j: int| 0 <= j < k ==> r@[j] == items@[order[j] as int],
        decreases order.len() - k,
    {
        r.push(items[order[k]]);
        k = k + 1;
    }
    r
}

/// With folders first and no kind groups, every folder is shown before every file.
pub proof fn folders_come_first(rows: Seq<Row>, order: Seq<usize>, o: Order, i: int, j: int)
    requires
        is_order(rows, order, o),
        o.folders,
        !o.groups,
        0 <= i < order.len(),
        0 <= j < order.len(),
        rows[order[i] as int].dir,
        !rows[order[j] as int].dir,
    ensures
        i < j,
{
    if j < i {
        assert(goes_before(rows, order[j] as int, order[i] as int, o));
    }
}

/// With kind groups, folders come first, then images, then everything else.
pub proof fn kind_groups_come_in_rank_order(rows: Seq<Row>, order: Seq<usize>, o: Order, i: int, j: int)
    requires
        is_order(rows, order, o),
        o.groups,
        0 <= i < order.len(),
        0 <= j < order.len(),
        rank_of(rows[order[i] as int]) < rank_of(rows[order[j] as int]),
    ensures
        i < j,
{
    if j < i {
        assert(goes_before(rows, order[j] as int, order[i] as int, o));
    }
    if i == j {
    }
}


/// What an unreadable request line is answered with.
pub const INVALID_REQUEST: &'static str = "invalid ordering request";

pub open spec fn str_member(s: Seq<char>, at: int, key: Seq<char>) -> Option<Seq<char>> {
    match crate::jsondoc::member(s, at, key) {
        Some(v) => crate::jsondoc::string_at(s, v),
        None => None,
    }
}

pub open spec fn bool_member(s: Seq<char>, at: int, key: Seq<char>, absent: bool) -> bool {
    match crate::jsondoc::member(s, at, key) {
        Some(v) => match crate::jsondoc::bool_at(s, v) {
            Some(b) => b,
            None => absent,
        },
        None => absent,
    }
}

/// The order a list or sort request line asks for. A list request that names no key is by name; a
/// sort request must name one. Folders come first unless the line says otherwise.
pub open spec fn requested(line: Seq<char>) -> Result<Order, Seq<char>> {
    match crate::jsondoc::document(line) {
        None => Err(INVALID_REQUEST@),
        Some(root) => {
            let fallback = if str_member(line, root, "c"@) == Some("sort"@) {
                ""@
            } else {
                "name"@
            };
            let by = match str_member(line, root, "by"@) {
                Some(b) => b,
                None => fallback,
            };
            match key_of(by) {
                Some(k) => Ok(
                    Order {
                        by: k,
                        desc: bool_member(line, root, "desc"@, false),
                        folders: bool_member(line, root, "foldersFirst"@, true),
                        groups: bool_member(line, root, "groupByKind"@, false),
                    },
                ),
                None => Err(NO_SUCH_KEY@),
            }
        },
    }
}

fn str_field(d: &crate::jsondoc::Doc, key: &str) -> (r: Option<String>)
    ensures
        crate::chooser::opt_view(r) == str_member(d.text@, d.root as int, key@),
{
    match crate::jsondoc::get(d, d.root, key) {
        Some(v) => crate::jsondoc::str_value(d, v),
        None => None,
    }
}

fn bool_field(d: &crate::jsondoc::Doc, key: &str, absent: bool) -> (r: bool)
    ensures
        r == bool_member(d.text@, d.root as int, key@, absent),
{
    match crate::jsondoc::get(d, d.root, key) {
        Some(v) => match crate::jsondoc::bool_value(d, v) {
            Some(b) => b,
            None => absent,
        },
        None => absent,
    }
}

/// Sample input: {"c":"list","by":"name","desc":false,"foldersFirst":true,"groupByKind":false}
pub fn request(line: &str) -> (r: Result<Order, &'static str>)
    ensures
        match r {
            Ok(o) => requested(line@) == Ok::<Order, Seq<char>>(o),
            Err(e) => requested(line@) == Err::<Order, Seq<char>>(e@),
        },
{
    let d = match crate::jsondoc::parse(line) {
        Some(d) => d,
        None => return Err(INVALID_REQUEST),
    };
    let c = str_field(&d, "c");
    let sorting = match &c {
        Some(t) => same(t.as_str(), "sort"),
        None => false,
    };
    let by = match str_field(&d, "by") {
        Some(b) => b,
        None => if sorting {
            String::new()
        } else {
            String::from_str("name")
        },
    };
    proof {
        reveal_strlit("");
    }
    assert(by@ == (match str_member(d.text@, d.root as int, "by"@) {
        Some(b) => b,
        None => if sorting {
            ""@
        } else {
            "name"@
        },
    }));
    let k = match sort_key(by.as_str()) {
        Ok(k) => k,
        Err(e) => return Err(e),
    };
    Ok(
        Order {
            by: k,
            desc: bool_field(&d, "desc", false),
            folders: bool_field(&d, "foldersFirst", true),
            groups: bool_field(&d, "groupByKind", false),
        },
    )
}


pub open spec fn shows_row(order: Seq<usize>, z: int) -> bool {
    exists|k: int| 0 <= k < order.len() && order[k] as int == z
}

/// Each row a permutation of `n` rows holds, it holds somewhere.
proof fn lemma_holds_every_row(order: Seq<usize>, n: int)
    requires
        order.len() == n,
        forall|k: int| 0 <= k < order.len() ==> order[k] < n,
        forall|i: int, j: int| 0 <= i < j < order.len() ==> order[i] != order[j],
    ensures
        forall|z: int| 0 <= z < n ==> #[trigger] shows_row(order, z),
{
    let ints = order.map_values(|u: usize| u as int);
    assert(ints.no_duplicates()) by {
        assert forall|i: int, j: int| 0 <= i < ints.len() && 0 <= j < ints.len() && i != j implies ints[i]
            != ints[j] by {
            if i < j {
                assert(order[i] != order[j]);
            } else {
                assert(order[j] != order[i]);
            }
        }
    }
    ints.unique_seq_to_set();
    vstd::set_lib::lemma_int_range(0, n);
    vstd::seq_lib::seq_to_set_is_finite(ints);
    assert(ints.to_set().subset_of(vstd::set_lib::set_int_range(0, n))) by {
        assert forall|z: int| ints.to_set().contains(z) implies vstd::set_lib::set_int_range(0, n).contains(z) by {
            assert(ints.contains(z));
            let k = choose|k: int| 0 <= k < ints.len() && ints[k] == z;
            assert(order[k] < n);
        }
    }
    vstd::set_lib::lemma_subset_equality(ints.to_set(), vstd::set_lib::set_int_range(0, n));
    assert forall|z: int| 0 <= z < n implies #[trigger] shows_row(order, z) by {
        assert(vstd::set_lib::set_int_range(0, n).contains(z));
        assert(ints.to_set().contains(z));
        assert(ints.contains(z));
        let k = choose|k: int| 0 <= k < ints.len() && ints[k] == z;
        assert(order[k] as int == z);
    }
}

/// No row goes before itself, and of two rows only one goes before the other.
proof fn lemma_before_antisym(rows: Seq<Row>, x: int, y: int, o: Order)
    ensures
        !(goes_before(rows, x, y, o) && goes_before(rows, y, x, o)),
{
    lemma_row(rows[x], rows[y], rows[y], o);
}

pub open spec fn sorted_by(rows: Seq<Row>, a: Seq<usize>, o: Order) -> bool {
    &&& forall|i: int, j: int| 0 <= i < j < a.len() ==> a[i] != a[j]
    &&& forall|i: int, j: int| 0 <= i < j < a.len() ==> goes_before(rows, a[i] as int, a[j] as int, o)
}

proof fn lemma_sorted_unique(rows: Seq<Row>, a: Seq<usize>, b: Seq<usize>, o: Order)
    requires
        a.len() == b.len(),
        sorted_by(rows, a, o),
        sorted_by(rows, b, o),
        forall|x: usize| a.contains(x) <==> b.contains(x),
    ensures
        a == b,
    decreases a.len(),
{
    if a.len() == 0 {
        assert(a =~= b);
    } else {
        let x = a[0];
        let y = b[0];
        if x != y {
            assert(a.contains(y)) by {
                assert(b.contains(y));
            }
            let i = choose|i: int| 0 <= i < a.len() && a[i] == y;
            assert(i != 0);
            assert(goes_before(rows, x as int, y as int, o));
            assert(b.contains(x)) by {
                assert(a.contains(x));
            }
            let j = choose|j: int| 0 <= j < b.len() && b[j] == x;
            assert(j != 0);
            assert(goes_before(rows, y as int, x as int, o));
            lemma_before_antisym(rows, x as int, y as int, o);
        }
        let ta = a.drop_first();
        let tb = b.drop_first();
        assert forall|z: usize| ta.contains(z) <==> tb.contains(z) by {
            if ta.contains(z) {
                let i = choose|i: int| 0 <= i < ta.len() && ta[i] == z;
                assert(a[i + 1] == z);
                assert(z != x);
                assert(a.contains(z));
                assert(b.contains(z));
                let j = choose|j: int| 0 <= j < b.len() && b[j] == z;
                assert(j != 0);
                assert(tb[j - 1] == z);
            }
            if tb.contains(z) {
                let j = choose|j: int| 0 <= j < tb.len() && tb[j] == z;
                assert(b[j + 1] == z);
                assert(z != y);
                assert(b.contains(z));
                assert(a.contains(z));
                let i = choose|i: int| 0 <= i < a.len() && a[i] == z;
                assert(i != 0);
                assert(ta[i - 1] == z);
            }
        }
        assert(sorted_by(rows, ta, o)) by {
            assert forall|i: int, j: int| 0 <= i < j < ta.len() implies ta[i] != ta[j] by {
                assert(a[i + 1] != a[j + 1]);
            }
            assert forall|i: int, j: int| 0 <= i < j < ta.len() implies goes_before(
                rows,
                ta[i] as int,
                ta[j] as int,
                o,
            ) by {
                assert(goes_before(rows, a[i + 1] as int, a[j + 1] as int, o));
            }
        }
        assert(sorted_by(rows, tb, o)) by {
            assert forall|i: int, j: int| 0 <= i < j < tb.len() implies tb[i] != tb[j] by {
                assert(b[i + 1] != b[j + 1]);
            }
            assert forall|i: int, j: int| 0 <= i < j < tb.len() implies goes_before(
                rows,
                tb[i] as int,
                tb[j] as int,
                o,
            ) by {
                assert(goes_before(rows, b[i + 1] as int, b[j + 1] as int, o));
            }
        }
        lemma_sorted_unique(rows, ta, tb, o);
        assert(a =~= seq![x] + ta);
        assert(b =~= seq![y] + tb);
    }
}

/// A listing has one order for given rows and options: any two orders of the same rows by the same
/// options are the same, so the order `ordered` answers is the only one it could answer.
pub proof fn a_listing_has_one_order(rows: Seq<Row>, a: Seq<usize>, b: Seq<usize>, o: Order)
    requires
        is_order(rows, a, o),
        is_order(rows, b, o),
    ensures
        a == b,
{
    let n = rows.len() as int;
    lemma_holds_every_row(a, n);
    lemma_holds_every_row(b, n);
    assert forall|x: usize| a.contains(x) <==> b.contains(x) by {
        if a.contains(x) {
            let i = choose|i: int| 0 <= i < a.len() && a[i] == x;
            assert(a[i] < n);
            assert(shows_row(b, x as int));
            let j = choose|j: int| 0 <= j < b.len() && b[j] as int == x as int;
            assert(b[j] == x);
        }
        if b.contains(x) {
            let j = choose|j: int| 0 <= j < b.len() && b[j] == x;
            assert(b[j] < n);
            assert(shows_row(a, x as int));
            let i = choose|i: int| 0 <= i < a.len() && a[i] as int == x as int;
            assert(a[i] == x);
        }
    }
    lemma_sorted_unique(rows, a, b, o);
}


/// With no folder or kind groups and every row's name its own, a descending order is the ascending
/// one turned round.
pub proof fn descending_is_ascending_turned_round(rows: Seq<Row>, a: Seq<usize>, o: Order)
    requires
        is_order(rows, a, o),
        !o.folders,
        !o.groups,
        !o.desc,
        forall|x: int, y: int|
            0 <= x < rows.len() && 0 <= y < rows.len() && x != y ==> rows[x].name_rank != rows[y].name_rank,
    ensures
        is_order(rows, a.reverse(), Order { desc: true, ..o }),
{
    let d = Order { desc: true, ..o };
    let r = a.reverse();
    let n = a.len() as int;
    assert forall|k: int| 0 <= k < r.len() implies r[k] < rows.len() by {
        assert(r[k] == a[n - 1 - k]);
    }
    assert forall|i: int, j: int| 0 <= i < j < r.len() implies r[i] != r[j] by {
        assert(r[i] == a[n - 1 - i]);
        assert(r[j] == a[n - 1 - j]);
    }
    assert forall|i: int, j: int| 0 <= i < j < r.len() implies goes_before(rows, r[i] as int, r[j] as int, d) by {
        let p = a[n - 1 - j];
        let q = a[n - 1 - i];
        assert(r[i] == q);
        assert(r[j] == p);
        assert(goes_before(rows, p as int, q as int, o));
        assert(p != q);
        assert(rows[p as int].name_rank != rows[q as int].name_rank);
        lemma_row(rows[p as int], rows[q as int], rows[q as int], o);
        lemma_row(rows[q as int], rows[p as int], rows[p as int], d);
        lemma_key(rows[p as int], rows[q as int], rows[q as int], o.by);
    }
}


/// Two rows the grouping does not part: with kind groups, rows of the same rank (folders, images,
/// everything else); with folders first, two folders or two files; otherwise any two rows.
pub open spec fn same_group(x: Row, y: Row, o: Order) -> bool {
    &&& o.groups ==> rank_of(x) == rank_of(y)
    &&& (!o.groups && o.folders) ==> x.dir == y.dir
}

/// The size the size column shows for a row: a folder's walked size, a file's own.
pub open spec fn shown_size(r: Row) -> int {
    if r.dir {
        r.walked as int
    } else {
        r.size as int
    }
}

/// Where two rows stand in an order: `x` at place `i`, `y` at place `j`.
pub open spec fn placed(rows: Seq<Row>, order: Seq<usize>, i: int, j: int) -> bool {
    0 <= i < order.len() && 0 <= j < order.len()
}

/// A sort by modification time shows the row modified earlier first when ascending and last when
/// descending, whenever the grouping does not part the two rows.
pub proof fn a_sort_by_mtime_shows_the_earlier_first(rows: Seq<Row>, order: Seq<usize>, o: Order, i: int, j: int)
    requires
        is_order(rows, order, o),
        o.by == SortBy::Mtime,
        placed(rows, order, i, j),
        same_group(rows[order[i] as int], rows[order[j] as int], o),
        rows[order[i] as int].mtime < rows[order[j] as int].mtime,
    ensures
        !o.desc ==> i < j,
        o.desc ==> j < i,
{
    if j < i {
        assert(goes_before(rows, order[j] as int, order[i] as int, o));
    }
    if i < j {
        assert(goes_before(rows, order[i] as int, order[j] as int, o));
    }
}

/// A sort by size shows the row of the smaller shown size first when ascending and last when
/// descending, whenever the grouping does not part the two rows.
pub proof fn a_sort_by_size_shows_the_smaller_first(rows: Seq<Row>, order: Seq<usize>, o: Order, i: int, j: int)
    requires
        is_order(rows, order, o),
        o.by == SortBy::Size,
        placed(rows, order, i, j),
        same_group(rows[order[i] as int], rows[order[j] as int], o),
        shown_size(rows[order[i] as int]) < shown_size(rows[order[j] as int]),
    ensures
        !o.desc ==> i < j,
        o.desc ==> j < i,
{
    if j < i {
        assert(goes_before(rows, order[j] as int, order[i] as int, o));
    }
    if i < j {
        assert(goes_before(rows, order[i] as int, order[j] as int, o));
    }
}

/// A sort by name shows the row earlier in name order first when ascending and last when descending,
/// whenever the grouping does not part the two rows; so does any other key once the two rows tie on it.
pub proof fn name_order_decides_what_the_key_leaves_tied(rows: Seq<Row>, order: Seq<usize>, o: Order, i: int, j: int)
    requires
        is_order(rows, order, o),
        placed(rows, order, i, j),
        same_group(rows[order[i] as int], rows[order[j] as int], o),
        o.by == SortBy::Size ==> shown_size(rows[order[i] as int]) == shown_size(rows[order[j] as int]),
        o.by == SortBy::Mtime ==> rows[order[i] as int].mtime == rows[order[j] as int].mtime,
        o.by == SortBy::Kind ==> kind_text(rows[order[i] as int]) == kind_text(rows[order[j] as int]),
        rows[order[i] as int].name_rank < rows[order[j] as int].name_rank,
    ensures
        !o.desc ==> i < j,
        o.desc ==> j < i,
{
    let x = rows[order[i] as int];
    let y = rows[order[j] as int];
    if o.by == SortBy::Kind {
        lemma_text_antisym(kind_text(x), kind_text(y));
        lemma_text_antisym(kind_text(y), kind_text(x));
        lemma_text_same(kind_text(x));
    }
    if j < i {
        assert(goes_before(rows, order[j] as int, order[i] as int, o));
    }
    if i < j {
        assert(goes_before(rows, order[i] as int, order[j] as int, o));
    }
}

proof fn lemma_text_same(a: Seq<char>)
    ensures
        text_order(a, a) == 0,
    decreases a.len(),
{
    if a.len() > 0 {
        lemma_text_same(a.drop_first());
    }
}

/// `a` comes before `b` character by character: it is a proper prefix of `b`, or the first character
/// where they differ is smaller in `a`.
pub open spec fn text_before(a: Seq<char>, b: Seq<char>) -> bool {
    exists|k: int|
        0 <= k <= a.len() && k <= b.len() && #[trigger] a.take(k) == b.take(k) && ((k == a.len() && k
            < b.len()) || (k < a.len() && k < b.len() && (a[k] as int) < (b[k] as int)))
}

proof fn lemma_text_before(a: Seq<char>, b: Seq<char>, k: int)
    requires
        0 <= k <= a.len(),
        k <= b.len(),
        a.take(k) == b.take(k),
        (k == a.len() && k < b.len()) || (k < a.len() && k < b.len() && (a[k] as int) < (b[k] as int)),
    ensures
        text_order(a, b) == -1,
    decreases k,
{
    if k > 0 {
        assert(a[0] == a.take(k)[0]);
        assert(b[0] == b.take(k)[0]);
        assert(a.drop_first().take(k - 1) =~= a.take(k).drop_first());
        assert(b.drop_first().take(k - 1) =~= b.take(k).drop_first());
        if k < a.len() && k < b.len() {
            assert(a.drop_first()[k - 1] == a[k]);
            assert(b.drop_first()[k - 1] == b[k]);
        }
        lemma_text_before(a.drop_first(), b.drop_first(), k - 1);
    }
}

/// A sort by kind shows the row whose kind text comes first character by character first when
/// ascending and last when descending, whenever the grouping does not part the two rows.
pub proof fn a_sort_by_kind_follows_the_kind_text(rows: Seq<Row>, order: Seq<usize>, o: Order, i: int, j: int)
    requires
        is_order(rows, order, o),
        o.by == SortBy::Kind,
        placed(rows, order, i, j),
        same_group(rows[order[i] as int], rows[order[j] as int], o),
        text_before(kind_text(rows[order[i] as int]), kind_text(rows[order[j] as int])),
    ensures
        !o.desc ==> i < j,
        o.desc ==> j < i,
{
    let x = rows[order[i] as int];
    let y = rows[order[j] as int];
    let k = choose|k: int|
        0 <= k <= kind_text(x).len() && k <= kind_text(y).len() && #[trigger] kind_text(x).take(k) == kind_text(
            y,
        ).take(k) && ((k == kind_text(x).len() && k < kind_text(y).len()) || (k < kind_text(x).len() && k
            < kind_text(y).len() && (kind_text(x)[k] as int) < (kind_text(y)[k] as int)));
    lemma_text_before(kind_text(x), kind_text(y), k);
    lemma_text_antisym(kind_text(x), kind_text(y));
    if i == j {
        lemma_text_same(kind_text(x));
    }
    if j < i {
        assert(goes_before(rows, order[j] as int, order[i] as int, o));
    }
    if i < j {
        assert(goes_before(rows, order[i] as int, order[j] as int, o));
    }
}

} // verus!
