use vstd::prelude::*;

verus! {

/// A memory region of the target, as its enumeration writes it.
pub struct Region {
    pub start_address: String,
    pub end_address: String,
    pub protection: String,
    pub file_path: Option<String>,
}

/// Unicode white space, which separates the fields of a line.
pub open spec fn is_white(c: char) -> bool {
    ('\u{9}' <= c && c <= '\u{d}') || c == ' ' || c == '\u{85}' || c == '\u{a0}' || c
        == '\u{1680}' || ('\u{2000}' <= c && c <= '\u{200a}') || c == '\u{2028}' || c
        == '\u{2029}' || c == '\u{202f}' || c == '\u{205f}' || c == '\u{3000}'
}

/// The first position at or after `i` that is not white space.
pub open spec fn skip_white(s: Seq<char>, i: int) -> int
    decreases s.len() - i,
{
    if i < 0 || i >= s.len() || !is_white(s[i]) {
        i
    } else {
        skip_white(s, i + 1)
    }
}

/// The end of the field that starts at `i`: the next white space.
pub open spec fn field_end(s: Seq<char>, i: int) -> int
    decreases s.len() - i,
{
    if i < 0 || i >= s.len() || is_white(s[i]) {
        i
    } else {
        field_end(s, i + 1)
    }
}

/// The fields of `s` from `i` on, as (start, end) spans: the runs of
/// characters between white space.
pub open spec fn fields_from(s: Seq<char>, i: int) -> Seq<(int, int)>
    decreases s.len() - i,
{
    let j = skip_white(s, i);
    if i < 0 || j < i || j >= s.len() {
        Seq::empty()
    } else {
        let e = field_end(s, j);
        if e <= j || e > s.len() {
            Seq::empty()
        } else {
            seq![(j, e)] + fields_from(s, e)
        }
    }
}

/// How many `-` there are in `s[a..b]`.
pub open spec fn dashes(s: Seq<char>, a: int, b: int) -> nat
    decreases b - a,
{
    if b <= a {
        0
    } else {
        dashes(s, a, b - 1) + if s[b - 1] == '-' {
            1nat
        } else {
            0
        }
    }
}

/// The first `-` in `s[a..b]`, or `b`.
pub open spec fn first_dash(s: Seq<char>, a: int, b: int) -> int
    decreases b - a,
{
    if a >= b || s[a] == '-' {
        a
    } else {
        first_dash(s, a + 1, b)
    }
}

pub open spec fn field_text(s: Seq<char>, f: (int, int)) -> Seq<char> {
    s.subrange(f.0, f.1)
}

/// Fields `a..k` joined by single spaces.
pub open spec fn joined(s: Seq<char>, f: Seq<(int, int)>, a: int, k: int) -> Seq<char>
    decreases k - a,
{
    if k <= a + 1 {
        field_text(s, f[a])
    } else {
        joined(s, f, a, k - 1) + " "@ + field_text(s, f[k - 1])
    }
}

/// What a line of the enumeration says, if it describes a region: at least
/// five fields, the first `start-end`, the second the protection, and any
/// from the sixth on the path.
pub open spec fn line_region(s: Seq<char>) -> Option<
    (Seq<char>, Seq<char>, Seq<char>, Option<Seq<char>>),
> {
    let f = fields_from(s, 0);
    if f.len() >= 5 && dashes(s, f[0].0, f[0].1) == 1 {
        let d = first_dash(s, f[0].0, f[0].1);
        Some(
            (
                s.subrange(f[0].0, d),
                s.subrange(d + 1, f[0].1),
                field_text(s, f[1]),
                if f.len() > 5 {
                    Some(joined(s, f, 5, f.len() as int))
                } else {
                    None
                },
            ),
        )
    } else {
        None
    }
}

pub open spec fn region_view(r: &Region) -> (Seq<char>, Seq<char>, Seq<char>, Option<Seq<char>>) {
    (
        r.start_address@,
        r.end_address@,
        r.protection@,
        match r.file_path {
            Some(p) => Some(p@),
            None => None,
        },
    )
}

fn is_white_at(s: &Vec<char>, i: usize) -> (r: bool)
    requires
        i < s@.len(),
    ensures
        r == is_white(s@[i as int]),
{
    let c = s[i];
    ('\u{9}' <= c && c <= '\u{d}') || c == ' ' || c == '\u{85}' || c == '\u{a0}' || c
        == '\u{1680}' || ('\u{2000}' <= c && c <= '\u{200a}') || c == '\u{2028}' || c
        == '\u{2029}' || c == '\u{202f}' || c == '\u{205f}' || c == '\u{3000}'
}

proof fn lemma_skip_white_at_least(s: Seq<char>, i: int)
    requires
        0 <= i <= s.len(),
    ensures
        i <= skip_white(s, i) <= s.len(),
    decreases s.len() - i,
{
    if i < s.len() && is_white(s[i]) {
        lemma_skip_white_at_least(s, i + 1);
    }
}

fn field_spans(s: &Vec<char>) -> (r: Vec<(usize, usize)>)
    ensures
        r@.len() == fields_from(s@, 0).len(),
        forall|k: int|
            0 <= k < r@.len() ==> (#[trigger] r@[k]).0 as int == fields_from(s@, 0)[k].0
                && r@[k].1 as int == fields_from(s@, 0)[k].1,
{
    let mut out: Vec<(usize, usize)> = Vec::new();
    let mut i: usize = 0;
    let ghost all = fields_from(s@, 0);
    loop
        invariant
            i <= s@.len(),
            all == fields_from(s@, 0),
            out@.len() + fields_from(s@, i as int).len() == all.len(),
            forall|k: int|
                0 <= k < out@.len() ==> (#[trigger] out@[k]).0 as int == all[k].0 && out@[k].1 as int
                    == all[k].1,
            forall|k: int|
                0 <= k < fields_from(s@, i as int).len() ==> all[out@.len() + k]
                    == #[trigger] fields_from(s@, i as int)[k],
        decreases s@.len() - i,
    {
        let mut j = i;
        while j < s.len() && is_white_at(s, j)
            invariant
                i <= j <= s@.len(),
                skip_white(s@, j as int) == skip_white(s@, i as int),
            decreases s@.len() - j,
        {
            j += 1;
        }
        proof {
            assert(j >= s@.len() || !is_white(s@[j as int]));
            assert(skip_white(s@, j as int) == j as int);
        }
        if j >= s.len() {
            assert(fields_from(s@, i as int).len() == 0);
            return out;
        }
        let mut e = j;
        while e < s.len() && !is_white_at(s, e)
            invariant
                j <= e <= s@.len(),
                field_end(s@, e as int) == field_end(s@, j as int),
            decreases s@.len() - e,
        {
            e += 1;
        }
        let ghost rest = fields_from(s@, e as int);
        proof {
            assert(field_end(s@, e as int) == e as int);
            assert(fields_from(s@, i as int) == seq![(j as int, e as int)] + rest);
            assert(fields_from(s@, i as int)[0] == (j as int, e as int));
            assert(all[out@.len() as int + 0] == fields_from(s@, i as int)[0]);
            assert forall|k: int| 0 <= k < rest.len() implies all[out@.len() + 1 + k]
                == #[trigger] rest[k] by {
                assert(fields_from(s@, i as int)[1 + k] == rest[k]);
            }
        }
        out.push((j, e));
        i = e;
    }
}

fn count_dashes(s: &Vec<char>, a: usize, b: usize) -> (r: (usize, usize))
    requires
        a <= b <= s@.len(),
    ensures
        r.0 == dashes(s@, a as int, b as int),
        r.1 == first_dash(s@, a as int, b as int),
{
    let mut n: usize = 0;
    let mut first: usize = b;
    let mut k: usize = a;
    while k < b
        invariant
            a <= k <= b <= s@.len(),
            n == dashes(s@, a as int, k as int),
            n <= k - a,
            n == 0 ==> first == b && first_dash(s@, a as int, b as int) == first_dash(
                s@,
                k as int,
                b as int,
            ),
            n > 0 ==> first == first_dash(s@, a as int, b as int),
        decreases b - k,
    {
        if s[k] == '-' {
            if n == 0 {
                first = k;
            }
            n += 1;
        }
        k += 1;
    }
    if n == 0 {
        assert(first_dash(s@, b as int, b as int) == b);
    }
    (n, first)
}

/// The region that a line of the enumeration describes, if any.
pub fn parse_region_line(line: &str) -> (r: Option<Region>)
    ensures
        r is None <==> line_region(line@) is None,
        r matches Some(g) ==> region_view(&g) == line_region(line@)->Some_0,
{
    let s = crate::resolve::chars_of_text(line);
    let f = field_spans(&s);
    if f.len() < 5 {
        return None;
    }
    let (a, b) = f[0];
    proof {
        lemma_fields_in_bounds(s@, 0);
    }
    let (n, d) = count_dashes(&s, a, b);
    if n != 1 {
        return None;
    }
    proof {
        lemma_first_dash_inside(s@, a as int, b as int);
    }
    let start = String::from_str(line.substring_char(a, d));
    let end = String::from_str(line.substring_char(d + 1, b));
    let (prot_from, prot_to) = f[1];
    let prot = String::from_str(line.substring_char(prot_from, prot_to));
    let path = if f.len() > 5 {
        let (x0, x1) = f[5];
        let mut p = String::from_str(line.substring_char(x0, x1));
        let mut k: usize = 6;
        while k < f.len()
            invariant
                6 <= k <= f@.len(),
                f@.len() == fields_from(s@, 0).len(),
                forall|q: int|
                    0 <= q < f@.len() ==> (#[trigger] f@[q]).0 as int == fields_from(s@, 0)[q].0
                        && f@[q].1 as int == fields_from(s@, 0)[q].1,
                forall|q: int|
                    0 <= q < fields_from(s@, 0).len() ==> 0 <= (#[trigger] fields_from(s@, 0)[q]).0
                        <= fields_from(s@, 0)[q].1 <= s@.len(),
                s@ == line@,
                p@ == joined(s@, fields_from(s@, 0), 5, k as int),
            decreases f@.len() - k,
        {
            let (y0, y1) = f[k];
            assert(fields_from(s@, 0)[k as int].0 <= fields_from(s@, 0)[k as int].1);
            p.append(" ");
            p.append(line.substring_char(y0, y1));
            proof {
                reveal_strlit(" ");
                assert(p@ =~= joined(s@, fields_from(s@, 0), 5, k + 1));
            }
            k += 1;
        }
        Some(p)
    } else {
        None
    };
    Some(Region { start_address: start, end_address: end, protection: prot, file_path: path })
}

proof fn lemma_fields_in_bounds(s: Seq<char>, i: int)
    requires
        0 <= i <= s.len(),
    ensures
        forall|q: int|
            0 <= q < fields_from(s, i).len() ==> i <= (#[trigger] fields_from(s, i)[q]).0
                <= fields_from(s, i)[q].1 <= s.len(),
    decreases s.len() - i,
{
    let j = skip_white(s, i);
    lemma_skip_white_at_least(s, i);
    if j < s.len() {
        let e = field_end(s, j);
        if e > j && e <= s.len() {
            lemma_fields_in_bounds(s, e);
            let all = fields_from(s, i);
            let rest = fields_from(s, e);
            assert forall|q: int| 0 <= q < all.len() implies i <= (#[trigger] all[q]).0 <= all[q].1
                <= s.len() by {
                if q > 0 {
                    assert(all[q] == rest[q - 1]);
                }
            }
        }
    }
}

proof fn lemma_first_dash_inside(s: Seq<char>, a: int, b: int)
    requires
        0 <= a <= b <= s.len(),
        dashes(s, a, b) > 0,
    ensures
        a <= first_dash(s, a, b) < b,
    decreases b - a,
{
    if s[a] != '-' {
        lemma_dashes_shift(s, a, b);
        lemma_first_dash_inside(s, a + 1, b);
    }
}

proof fn lemma_dashes_shift(s: Seq<char>, a: int, b: int)
    requires
        0 <= a < b <= s.len(),
        s[a] != '-',
    ensures
        dashes(s, a, b) == dashes(s, a + 1, b),
    decreases b - a,
{
    let x: nat = if s[b - 1] == '-' {
        1
    } else {
        0
    };
    assert(dashes(s, a, b) == dashes(s, a, b - 1) + x);
    assert(dashes(s, a + 1, b) == dashes(s, a + 1, b - 1) + x);
    if b > a + 1 {
        lemma_dashes_shift(s, a, b - 1);
    } else {
        assert(dashes(s, a, a + 1) == dashes(s, a, a) + x);
    }
}

} // verus!
