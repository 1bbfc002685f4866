//! Locating Item 1A ("Risk Factors") in a 10-K HTML document, and choosing the
//! extracted texts that plausibly are its risk-factor headings.

use vstd::prelude::*;

use crate::text::chars_of;

verus! {

/// `n` occurs in `h` at position `p`.
pub open spec fn occurs_at(h: Seq<char>, n: Seq<char>, p: int) -> bool {
    0 <= p && p + n.len() <= h.len() && h.subrange(p, p + n.len()) == n
}

/// The positions, from `start` on, at which `n` is found when the text is
/// scanned left to right, each search resuming just after the previous match
/// (non-overlapping leftmost matches).
pub open spec fn matches_from(h: Seq<char>, n: Seq<char>, start: int) -> Seq<int>
    decreases h.len() - start,
{
    if n.len() == 0 || start < 0 || start + n.len() > h.len() {
        seq![]
    } else if occurs_at(h, n, start) {
        seq![start] + matches_from(h, n, start + n.len())
    } else {
        matches_from(h, n, start + 1)
    }
}

/// The positions in `p` as integers.
pub open spec fn positions(p: Seq<usize>) -> Seq<int> {
    p.map_values(|x: usize| x as int)
}

/// Matches found from `start` lie at or after `start`, in increasing order,
/// and are occurrences.
pub proof fn lemma_matches_from(h: Seq<char>, n: Seq<char>, start: int)
    ensures
        forall|k: int|
            0 <= k < matches_from(h, n, start).len() ==> {
                let p = #[trigger] matches_from(h, n, start)[k];
                &&& start <= p
                &&& occurs_at(h, n, p)
            },
        forall|k: int, m: int|
            0 <= k < m < matches_from(h, n, start).len() ==> #[trigger] matches_from(h, n, start)[k]
                < #[trigger] matches_from(h, n, start)[m],
    decreases h.len() - start,
{
    if n.len() == 0 || start < 0 || start + n.len() > h.len() {
    } else if occurs_at(h, n, start) {
        lemma_matches_from(h, n, start + n.len());
        let rest = matches_from(h, n, start + n.len());
        let all = seq![start] + rest;
        assert(matches_from(h, n, start) == all);
        assert forall|k: int| 0 <= k < all.len() implies {
            let p = #[trigger] all[k];
            &&& start <= p
            &&& occurs_at(h, n, p)
        } by {
            if k > 0 {
                assert(all[k] == rest[k - 1]);
            }
        }
        assert forall|k: int, m: int| 0 <= k < m < all.len() implies #[trigger] all[k] < #[trigger] all[m] by {
            assert(all[m] == rest[m - 1]);
            if k > 0 {
                assert(all[k] == rest[k - 1]);
            }
        }
    } else {
        lemma_matches_from(h, n, start + 1);
        assert(matches_from(h, n, start) == matches_from(h, n, start + 1));
    }
}

/// Whether `n` occurs in `h` at position `p`.
fn occurs_at_exec(h: &Vec<char>, n: &Vec<char>, p: usize) -> (r: bool)
    requires
        p + n.len() <= h.len(),
    ensures
        r == occurs_at(h@, n@, p as int),
{
    let mut i: usize = 0;
    while i < n.len()
        invariant
            p + n.len() <= h.len(),
            i <= n.len(),
            forall|k: int| 0 <= k < i ==> h@[p + k] == n@[k],
        decreases n.len() - i,
    {
        if h[p + i] != n[i] {
            assert(h@.subrange(p as int, p + n.len())[i as int] != n@[i as int]);
            return false;
        }
        i = i + 1;
    }
    assert(h@.subrange(p as int, p + n.len()) =~= n@);
    true
}

/// Non-overlapping leftmost matches of `n` in `h`, as character positions.
fn find_all_chars(h: &Vec<char>, n: &Vec<char>) -> (r: Vec<usize>)
    requires
        n.len() > 0,
    ensures
        positions(r@) == matches_from(h@, n@, 0),
{
    let mut out: Vec<usize> = Vec::new();
    let mut i: usize = 0;
    while i <= h.len() && n.len() <= h.len() - i
        invariant
            n.len() > 0,
            i <= h.len(),
            matches_from(h@, n@, 0) == positions(out@) + matches_from(h@, n@, i as int),
        decreases h.len() - i,
    {
        if occurs_at_exec(h, n, i) {
            let ghost before = positions(out@);
            out.push(i);
            assert(positions(out@) =~= before.push(i as int));
            assert(positions(out@) + matches_from(h@, n@, i + n.len()) =~= before + (seq![i as int]
                + matches_from(h@, n@, i + n.len())));
            i = i + n.len();
        } else {
            i = i + 1;
        }
    }
    assert(matches_from(h@, n@, i as int) == Seq::<int>::empty());
    assert(positions(out@) + seq![] =~= positions(out@));
    out
}


} // verus!

verus! {

/// Every element is smaller than every later one.
pub open spec fn ascending_ints(s: Seq<int>) -> bool {
    forall|i: int, j: int| 0 <= i < j < s.len() ==> #[trigger] s[i] < #[trigger] s[j]
}

/// The positions of `v` in ascending order.
fn sort_positions(v: &Vec<usize>) -> (r: Vec<usize>)
    requires
        positions(v@).no_duplicates(),
    ensures
        ascending_ints(positions(r@)),
        positions(r@).to_set() == positions(v@).to_set(),
        r.len() == v.len(),
{
    let mut out: Vec<usize> = Vec::new();
    for i in 0..v.len()
        invariant
            positions(v@).no_duplicates(),
            out.len() == i,
            ascending_ints(positions(out@)),
            forall|x: int| positions(out@).contains(x) <==> positions(v@).take(i as int).contains(x),
    {
        let x = v[i];
        let ghost pv = positions(v@);
        assert(pv[i as int] == x as int);
        assert(!pv.take(i as int).contains(x as int));
        let ghost before = positions(out@);
        let mut p: usize = 0;
        while p < out.len() && out[p] < x
            invariant
                p <= out.len(),
                before == positions(out@),
                forall|q: int| 0 <= q < p ==> #[trigger] before[q] < x,
            decreases out.len() - p,
        {
            assert(before[p as int] == out@[p as int] as int);
            p = p + 1;
        }
        proof {
            if p < before.len() {
                assert(before[p as int] == out@[p as int] as int);
                assert(before.contains(before[p as int]));
                assert(before[p as int] != x as int);
            }
        }
        out.insert(p, x);
        assert(positions(out@) =~= before.insert(p as int, x as int));
        assert(pv.take(i + 1) =~= pv.take(i as int).push(x as int));
        assert forall|y: int| positions(out@).contains(y) <==> pv.take(i + 1).contains(y) by {
            let o = positions(out@);
            assert(before.contains(y) <==> pv.take(i as int).contains(y));
            vstd::seq_lib::lemma_seq_contains_after_push(pv.take(i as int), x as int, y);
            if o.contains(y) {
                let w = choose|w: int| 0 <= w < o.len() && o[w] == y;
                if w < p {
                    assert(before[w] == y);
                    assert(before.contains(y));
                } else if w > p {
                    assert(before[w - 1] == y);
                    assert(before.contains(y));
                }
            }
            if pv.take(i + 1).contains(y) {
                if y == x as int {
                    assert(o[p as int] == y);
                } else {
                    assert(pv.take(i as int).contains(y));
                    assert(before.contains(y));
                    let w = choose|w: int| 0 <= w < before.len() && before[w] == y;
                    if w < p {
                        assert(o[w] == y);
                    } else {
                        assert(o[w + 1] == y);
                    }
                }
            }
        }
    }
    assert(positions(v@).take(v.len() as int) =~= positions(v@));
    assert(positions(out@).to_set() =~= positions(v@).to_set());
    out
}

} // verus!

verus! {

/// The positions of a section marker written with a plain space or with a
/// no-break space: the matches of the first spelling, then of the second.
pub open spec fn marker_positions(h: Seq<char>, plain: Seq<char>, nbsp: Seq<char>) -> Seq<int> {
    matches_from(h, plain, 0) + matches_from(h, nbsp, 0)
}

/// The positions of "Item 1A" markers.
pub open spec fn item_1a_markers(h: Seq<char>) -> Seq<int> {
    marker_positions(h, "Item 1A"@, "Item\u{00a0}1A"@)
}

/// The positions of "Item 1B" markers.
pub open spec fn item_1b_markers(h: Seq<char>) -> Seq<int> {
    marker_positions(h, "Item 1B"@, "Item\u{00a0}1B"@)
}

/// The largest element of `b` that is greater than `start`, if any.
pub open spec fn latest_after(b: Seq<int>, start: int) -> Option<int>
    decreases b.len(),
{
    if b.len() == 0 {
        None
    } else {
        let rest = latest_after(b.drop_last(), start);
        let x = b.last();
        if x > start {
            match rest {
                Some(m) => if m >= x {
                    Some(m)
                } else {
                    Some(x)
                },
                None => Some(x),
            }
        } else {
            rest
        }
    }
}

/// Where the section that starts at `start` ends: at the last "Item 1B"
/// marker after it, or at the end of the document.
pub open spec fn section_end(b: Seq<int>, start: int, len: int) -> int {
    match latest_after(b, start) {
        Some(m) => m,
        None => len,
    }
}

/// `latest_after(b, start)` is the largest element of `b` greater than
/// `start`, and `None` exactly when no element is greater than `start`.
pub proof fn lemma_latest_after(b: Seq<int>, start: int)
    ensures
        latest_after(b, start) matches Some(m) ==> b.contains(m) && m > start,
        latest_after(b, start) matches Some(m) ==> forall|i: int|
            0 <= i < b.len() && #[trigger] b[i] > start ==> b[i] <= m,
        latest_after(b, start) is None ==> forall|i: int| 0 <= i < b.len() ==> #[trigger] b[i] <= start,
    decreases b.len(),
{
    if b.len() > 0 {
        let u = b.drop_last();
        lemma_latest_after(u, start);
        if let Some(m) = latest_after(u, start) {
            let w = choose|w: int| 0 <= w < u.len() && u[w] == m;
            assert(b[w] == m);
        }
        assert(b[b.len() - 1] == b.last());
        assert forall|i: int| 0 <= i < b.len() - 1 implies #[trigger] b[i] == u[i] by {}
    }
}

/// The two spellings of a marker never match at the same position.
proof fn lemma_spellings_disjoint(h: Seq<char>, plain: Seq<char>, nbsp: Seq<char>)
    requires
        plain.len() == nbsp.len(),
        plain.len() > 4,
        plain[4] != nbsp[4],
    ensures
        marker_positions(h, plain, nbsp).no_duplicates(),
{
    let a = matches_from(h, plain, 0);
    let b = matches_from(h, nbsp, 0);
    lemma_matches_from(h, plain, 0);
    lemma_matches_from(h, nbsp, 0);
    assert forall|i: int, j: int| 0 <= i < a.len() && 0 <= j < b.len() implies a[i] != b[j] by {
        let p = a[i];
        assert(occurs_at(h, plain, p));
        if p == b[j] {
            assert(occurs_at(h, nbsp, p));
            assert(h.subrange(p, p + plain.len())[4] == plain[4]);
            assert(h.subrange(p, p + nbsp.len())[4] == nbsp[4]);
        }
    }
    assert(a.no_duplicates());
    assert(b.no_duplicates());
    vstd::seq_lib::lemma_no_dup_in_concat(a, b);
}

/// Appends `src` to `dst`.
fn append_positions(dst: &mut Vec<usize>, src: &Vec<usize>)
    ensures
        positions(final(dst)@) == positions(old(dst)@) + positions(src@),
{
    let ghost start = positions(dst@);
    for i in 0..src.len()
        invariant
            positions(dst@) == start + positions(src@).take(i as int),
    {
        let ghost before = positions(dst@);
        dst.push(src[i]);
        assert(positions(dst@) =~= before.push(src@[i as int] as int));
        assert(positions(src@).take(i + 1) =~= positions(src@).take(i as int).push(src@[i as int] as int));
        assert(positions(dst@) =~= start + positions(src@).take(i + 1));
    }
    assert(positions(src@).take(src.len() as int) =~= positions(src@));
}

/// The slice of `html` covering Item 1A, from the third "Item 1A" marker (the
/// table of contents and a forward-looking-statements reference usually come
/// first) to the last "Item 1B" marker after it, or to the end of the document.
/// `None` when there are fewer than three "Item 1A" markers or no "Item 1B"
/// marker. Markers are written with a plain or a no-break space; positions
/// count characters.
pub fn locate_item_1a(html: &str) -> (r: Option<&str>)
    ensures
        r is None <==> (item_1a_markers(html@).len() < 3 || item_1b_markers(html@).len() == 0),
        r matches Some(section) ==> exists|sorted: Seq<int>|
            ascending_ints(sorted) && sorted.len() == item_1a_markers(html@).len()
                && sorted.to_set() == item_1a_markers(html@).to_set() && section@ == html@.subrange(
                sorted[2],
                section_end(item_1b_markers(html@), sorted[2], html@.len() as int),
            ),
{
    proof {
        reveal_strlit("Item 1A");
        reveal_strlit("Item\u{00a0}1A");
        reveal_strlit("Item 1B");
        reveal_strlit("Item\u{00a0}1B");
    }
    let h = chars_of(html);
    let a1 = find_all_chars(&h, &chars_of("Item 1A"));
    let a2 = find_all_chars(&h, &chars_of("Item\u{00a0}1A"));
    let b1 = find_all_chars(&h, &chars_of("Item 1B"));
    let b2 = find_all_chars(&h, &chars_of("Item\u{00a0}1B"));
    let ghost a = item_1a_markers(html@);
    let ghost b = item_1b_markers(html@);
    if (a1.len() < 3 && a2.len() < 3 - a1.len()) || (b1.len() == 0 && b2.len() == 0) {
        return None;
    }
    let mut combined: Vec<usize> = Vec::new();
    append_positions(&mut combined, &a1);
    append_positions(&mut combined, &a2);
    assert(positions(combined@) =~= a);
    proof {
        lemma_spellings_disjoint(html@, "Item 1A"@, "Item\u{00a0}1A"@);
    }
    let sorted = sort_positions(&combined);
    let start = sorted[2];
    let ghost ps = positions(sorted@);
    assert(ps[2] == start as int);
    assert(ps.to_set().contains(start as int));
    assert(a.contains(start as int));
    proof {
        lemma_matches_from(html@, "Item 1A"@, 0);
        lemma_matches_from(html@, "Item\u{00a0}1A"@, 0);
        lemma_matches_from(html@, "Item 1B"@, 0);
        lemma_matches_from(html@, "Item\u{00a0}1B"@, 0);
        let w = choose|w: int| 0 <= w < a.len() && a[w] == start as int;
        if w < matches_from(html@, "Item 1A"@, 0).len() {
            assert(occurs_at(html@, "Item 1A"@, start as int));
        } else {
            assert(occurs_at(html@, "Item\u{00a0}1A"@, start as int));
        }
    }
    let mut ends: Vec<usize> = Vec::new();
    append_positions(&mut ends, &b1);
    append_positions(&mut ends, &b2);
    assert(positions(ends@) =~= b);
    let mut best: Option<usize> = None;
    for i in 0..ends.len()
        invariant
            positions(ends@) == b,
            match best {
                Some(m) => latest_after(b.take(i as int), start as int) == Some(m as int),
                None => latest_after(b.take(i as int), start as int) is None,
            },
    {
        let x = ends[i];
        assert(b.take(i + 1).drop_last() =~= b.take(i as int));
        assert(b.take(i + 1).last() == x as int);
        if x > start {
            match best {
                Some(m) => {
                    if m < x {
                        best = Some(x);
                    }
                },
                None => {
                    best = Some(x);
                },
            }
        }
    }
    assert(b.take(ends.len() as int) =~= b);
    let end = match best {
        Some(m) => m,
        None => h.len(),
    };
    proof {
        lemma_latest_after(b, start as int);
        if let Some(m) = latest_after(b, start as int) {
            let w = choose|w: int| 0 <= w < b.len() && b[w] == m;
            if w < matches_from(html@, "Item 1B"@, 0).len() {
                assert(occurs_at(html@, "Item 1B"@, m));
            } else {
                assert(occurs_at(html@, "Item\u{00a0}1B"@, m));
            }
        }
    }
    Some(html.substring_char(start, end))
}

} // verus!

verus! {

/// Fewest headings a plausible Item 1A has.
pub const MIN_HEADINGS: usize = 15;

/// Most headings a plausible Item 1A has.
pub const MAX_HEADINGS: usize = 40;

/// Shortest plausible heading, in bytes.
pub const MIN_HEADING_LEN: usize = 30;

/// Longest plausible heading, in bytes.
pub const MAX_HEADING_LEN: usize = 300;

/// The number of bytes of the UTF-8 encoding of `c`.
pub open spec fn utf8_width(c: char) -> nat {
    if (c as u32) < 0x80 {
        1
    } else if (c as u32) < 0x800 {
        2
    } else if (c as u32) < 0x10000 {
        3
    } else {
        4
    }
}

/// The number of bytes of the UTF-8 encoding of `t` (what `str::len` gives).
pub open spec fn utf8_len(t: Seq<char>) -> nat
    decreases t.len(),
{
    if t.len() == 0 {
        0
    } else {
        utf8_len(t.drop_last()) + utf8_width(t.last())
    }
}

proof fn lemma_utf8_len_cons(c: char, r: Seq<char>)
    ensures
        utf8_len(seq![c] + r) == utf8_width(c) + utf8_len(r),
    decreases r.len(),
{
    let s = seq![c] + r;
    if r.len() > 0 {
        lemma_utf8_len_cons(c, r.drop_last());
        assert(s.drop_last() =~= seq![c] + r.drop_last());
        assert(s.last() == r.last());
        assert(utf8_len(s) == utf8_len(s.drop_last()) + utf8_width(s.last()));
        assert(utf8_len(r) == utf8_len(r.drop_last()) + utf8_width(r.last()));
    } else {
        assert(s.drop_last() =~= Seq::<char>::empty());
        assert(s.last() == c);
        assert(utf8_len(s) == utf8_len(s.drop_last()) + utf8_width(s.last()));
        assert(utf8_len(s.drop_last()) == 0);
    }
}

/// `utf8_len` is the length of vstd's UTF-8 encoding of the characters, the
/// byte length that `str::len` returns.
pub proof fn lemma_utf8_len_is_encoding_len(t: Seq<char>)
    ensures
        utf8_len(t) == vstd::utf8::encode_utf8(t).len(),
    decreases t.len(),
{
    if t.len() > 0 {
        lemma_utf8_len_is_encoding_len(t.drop_first());
        assert(t =~= seq![t[0]] + t.drop_first());
        lemma_utf8_len_cons(t[0], t.drop_first());
        vstd::utf8::char_is_scalar(t[0]);
    }
}

/// A text that plausibly is a risk-factor heading: between 30 and 300 bytes
/// long, ending with a period.
pub open spec fn plausible_heading(t: Seq<char>) -> bool {
    &&& MIN_HEADING_LEN <= utf8_len(t) <= MAX_HEADING_LEN
    &&& t.len() > 0
    &&& t.last() == '.'
}

proof fn lemma_utf8_len_prefix(t: Seq<char>, i: int, j: int)
    requires
        0 <= i <= j <= t.len(),
    ensures
        utf8_len(t.take(i)) <= utf8_len(t.take(j)),
    decreases j - i,
{
    if i < j {
        lemma_utf8_len_prefix(t, i, j - 1);
        assert(t.take(j).drop_last() =~= t.take(j - 1));
    }
}

/// The number of bytes of the UTF-8 encoding of `c`.
fn char_width(c: char) -> (w: usize)
    ensures
        w == utf8_width(c),
{
    let code: u32 = c as u32;
    if code < 0x80 {
        1
    } else if code < 0x800 {
        2
    } else if code < 0x10000 {
        3
    } else {
        4
    }
}

/// The byte offsets of character positions of `h`: the UTF-8 length of the
/// text before each.
pub open spec fn byte_offsets(h: Seq<char>, p: Seq<int>) -> Seq<int> {
    p.map_values(|q: int| utf8_len(h.take(q)) as int)
}

/// The byte offset of every character position of `text`, its end included.
fn byte_offset_table(text: &str, t: &Vec<char>) -> (r: Vec<usize>)
    requires
        t@ == text@,
    ensures
        r.len() == t.len() + 1,
        forall|i: int| 0 <= i <= t.len() ==> #[trigger] r@[i] == utf8_len(t@.take(i)),
{
    let total = text.as_bytes().len();
    proof {
        lemma_utf8_len_is_encoding_len(text@);
        assert(t@.take(t@.len() as int) =~= t@);
    }
    let mut r: Vec<usize> = Vec::new();
    r.push(0);
    assert(t@.take(0) =~= Seq::<char>::empty());
    let mut acc: usize = 0;
    let mut i: usize = 0;
    while i < t.len()
        invariant
            i <= t.len(),
            t@ == text@,
            total == utf8_len(t@.take(t@.len() as int)),
            r.len() == i + 1,
            acc == utf8_len(t@.take(i as int)),
            forall|k: int| 0 <= k <= i ==> #[trigger] r@[k] == utf8_len(t@.take(k)),
        decreases t.len() - i,
    {
        let w = char_width(t[i]);
        assert(t@.take(i + 1).drop_last() =~= t@.take(i as int));
        proof {
            lemma_utf8_len_prefix(t@, i + 1, t@.len() as int);
        }
        acc = acc + w;
        i = i + 1;
        r.push(acc);
    }
    r
}

/// Non-overlapping leftmost matches of `needle` in `haystack`, from left to
/// right, as byte offsets.
pub fn find_all(haystack: &str, needle: &str) -> (r: Vec<usize>)
    requires
        needle@.len() > 0,
    ensures
        positions(r@) == byte_offsets(haystack@, matches_from(haystack@, needle@, 0)),
{
    let h = chars_of(haystack);
    let n = chars_of(needle);
    let cp = find_all_chars(&h, &n);
    let table = byte_offset_table(haystack, &h);
    proof {
        lemma_matches_from(h@, n@, 0);
    }
    assert forall|m: int| 0 <= m < cp.len() implies #[trigger] cp@[m] <= h.len() by {
        assert(positions(cp@)[m] == cp@[m] as int);
        assert(occurs_at(h@, n@, matches_from(h@, n@, 0)[m]));
    }
    let mut out: Vec<usize> = Vec::new();
    for k in 0..cp.len()
        invariant
            table.len() == h.len() + 1,
            forall|i: int| 0 <= i <= h.len() ==> #[trigger] table@[i] == utf8_len(h@.take(i)),
            forall|m: int| 0 <= m < cp.len() ==> #[trigger] cp@[m] <= h.len(),
            out.len() == k,
            forall|m: int| 0 <= m < k ==> #[trigger] out@[m] == utf8_len(h@.take(cp@[m] as int)),
    {
        let p = cp[k];
        out.push(table[p]);
    }
    assert(positions(out@) =~= byte_offsets(haystack@, matches_from(haystack@, needle@, 0)));
    out
}

/// The UTF-8 length of `t`, or `MAX_HEADING_LEN + 1` when it is longer than
/// `MAX_HEADING_LEN`.
fn utf8_len_capped(t: &Vec<char>) -> (r: usize)
    ensures
        utf8_len(t@) > MAX_HEADING_LEN ==> r == MAX_HEADING_LEN + 1,
        utf8_len(t@) <= MAX_HEADING_LEN ==> r == utf8_len(t@),
{
    let mut acc: usize = 0;
    let mut i: usize = 0;
    while i < t.len()
        invariant
            i <= t.len(),
            acc == utf8_len(t@.take(i as int)),
            acc <= MAX_HEADING_LEN,
        decreases t.len() - i,
    {
        let w = char_width(t[i]);
        assert(t@.take(i + 1).drop_last() =~= t@.take(i as int));
        acc = acc + w;
        i = i + 1;
        if acc > MAX_HEADING_LEN {
            proof {
                lemma_utf8_len_prefix(t@, i as int, t@.len() as int);
                assert(t@.take(t@.len() as int) =~= t@);
            }
            return MAX_HEADING_LEN + 1;
        }
    }
    assert(t@.take(t@.len() as int) =~= t@);
    acc
}

/// A plausible heading is one whose UTF-8 encoding (vstd's `encode_utf8`, the
/// bytes of a `str`) is 30 to 300 bytes long and whose last character is a
/// period.
pub proof fn lemma_plausible_heading_is(t: Seq<char>)
    ensures
        plausible_heading(t) <==> (MIN_HEADING_LEN <= vstd::utf8::encode_utf8(t).len() <= MAX_HEADING_LEN
            && t.len() > 0 && t[t.len() - 1] == '.'),
{
    lemma_utf8_len_is_encoding_len(t);
}

/// The heading candidates are the texts, in order, that are 30 to 300 UTF-8
/// bytes long and end with a period: each candidate is such a text of the
/// input, and each such text of the input is a candidate.
pub proof fn lemma_heading_candidates_are(texts: Seq<Seq<char>>)
    ensures
        ({
            let c = texts.filter(|t: Seq<char>| plausible_heading(t));
            &&& forall|i: int|
                0 <= i < c.len() ==> {
                    let h = #[trigger] c[i];
                    &&& texts.contains(h)
                    &&& h.len() > 0
                    &&& h[h.len() - 1] == '.'
                    &&& MIN_HEADING_LEN <= vstd::utf8::encode_utf8(h).len() <= MAX_HEADING_LEN
                }
            &&& forall|j: int|
                0 <= j < texts.len() && (#[trigger] texts[j]).len() > 0 && texts[j][texts[j].len() - 1] == '.'
                    && MIN_HEADING_LEN <= vstd::utf8::encode_utf8(texts[j]).len() <= MAX_HEADING_LEN
                    ==> c.contains(texts[j])
        }),
{
    let p = |t: Seq<char>| plausible_heading(t);
    let c = texts.filter(p);
    assert forall|i: int| 0 <= i < c.len() implies {
        let h = #[trigger] c[i];
        &&& texts.contains(h)
        &&& h.len() > 0
        &&& h[h.len() - 1] == '.'
        &&& MIN_HEADING_LEN <= vstd::utf8::encode_utf8(h).len() <= MAX_HEADING_LEN
    } by {
        texts.lemma_filter_pred(p, i);
        assert(c.contains(c[i]));
        texts.lemma_filter_contains_rev(p, c[i]);
        lemma_plausible_heading_is(c[i]);
    }
    assert forall|j: int|
        0 <= j < texts.len() && (#[trigger] texts[j]).len() > 0 && texts[j][texts[j].len() - 1] == '.'
            && MIN_HEADING_LEN <= vstd::utf8::encode_utf8(texts[j]).len() <= MAX_HEADING_LEN implies c.contains(
        texts[j],
    ) by {
        lemma_plausible_heading_is(texts[j]);
        texts.lemma_filter_contains(p, j);
    }
}

/// Whether `text` plausibly is a risk-factor heading.
pub fn is_plausible_heading(text: &str) -> (r: bool)
    ensures
        r == plausible_heading(text@),
{
    let t = chars_of(text);
    let len = utf8_len_capped(&t);
    MIN_HEADING_LEN <= len && len <= MAX_HEADING_LEN && t.len() > 0 && t[t.len() - 1] == '.'
}

/// The texts of `texts` that plausibly are risk-factor headings, in order.
pub fn heading_candidates(texts: &Vec<String>) -> (r: Vec<String>)
    ensures
        r.deep_view() == texts.deep_view().filter(|t: Seq<char>| plausible_heading(t)),
{
    let ghost pred = |t: Seq<char>| plausible_heading(t);
    let mut out: Vec<String> = Vec::new();
    for i in 0..texts.len()
        invariant
            pred == (|t: Seq<char>| plausible_heading(t)),
            out.deep_view() == texts.deep_view().take(i as int).filter(pred),
    {
        let ghost before = out.deep_view();
        let ghost prefix = texts.deep_view().take(i + 1);
        assert(prefix.drop_last() =~= texts.deep_view().take(i as int));
        assert(prefix.last() == texts[i as int]@);
        assert(prefix.filter(pred) == if pred(prefix.last()) {
            prefix.drop_last().filter(pred).push(prefix.last())
        } else {
            prefix.drop_last().filter(pred)
        }) by {
            reveal_with_fuel(Seq::<_>::filter, 1);
        }
        if is_plausible_heading(texts[i].as_str()) {
            out.push(texts[i].clone());
            assert(out.deep_view() =~= before.push(texts[i as int]@));
        }
    }
    assert(texts.deep_view().take(texts.len() as int) =~= texts.deep_view());
    out
}

/// The search for the extraction pattern that yields a plausible number of
/// headings: patterns are tried in turn, and the first whose plausible
/// headings number between `MIN_HEADINGS` and `MAX_HEADINGS` wins.
pub struct HeadingSearch {
    /// The largest number of plausible headings a pattern tried so far gave.
    pub best_count: usize,
}

/// What the search does after a pattern's texts.
pub enum HeadingStep {
    /// The pattern's plausible headings are the result.
    Found(Vec<String>),
    /// Go on with the next pattern.
    Continue(HeadingSearch),
}

impl HeadingSearch {
    pub fn new() -> (r: HeadingSearch)
        ensures
            r.best_count == 0,
    {
        HeadingSearch { best_count: 0 }
    }

    /// Takes the texts one pattern extracted: their plausible headings are
    /// the result if they number between `MIN_HEADINGS` and `MAX_HEADINGS`;
    /// otherwise the search goes on, remembering the largest count seen. When
    /// no pattern is left, the document yields no plausible heading list, and
    /// `best_count` says how many the best pattern gave.
    pub fn step(&self, extracted: &Vec<String>) -> (r: HeadingStep)
        ensures
            ({
                let c = extracted.deep_view().filter(|t: Seq<char>| plausible_heading(t));
                &&& MIN_HEADINGS <= c.len() <= MAX_HEADINGS ==> (r matches HeadingStep::Found(h)
                    && h.deep_view() == c)
                &&& !(MIN_HEADINGS <= c.len() <= MAX_HEADINGS) ==> (r matches HeadingStep::Continue(s)
                    && s.best_count == if c.len() > self.best_count {
                    c.len()
                } else {
                    self.best_count as nat
                })
            }),
    {
        let candidates = heading_candidates(extracted);
        let count = candidates.len();
        if MIN_HEADINGS <= count && count <= MAX_HEADINGS {
            HeadingStep::Found(candidates)
        } else if count > self.best_count {
            HeadingStep::Continue(HeadingSearch { best_count: count })
        } else {
            HeadingStep::Continue(HeadingSearch { best_count: self.best_count })
        }
    }
}

} // verus!
