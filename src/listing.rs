use vstd::prelude::*;
use crate::resolve::{digits_value, is_space, skip_space};

verus! {

/// One entry of a directory listing: a directory or a file, with the
/// index of the directory that holds it, if any, among the entries before
/// it.
pub struct FileItem {
    pub item_type: String,
    pub name: String,
    pub size: Option<i64>,
    pub last_opened: Option<i64>,
    pub parent: Option<usize>,
}

/// The end of the line that starts at `i`: the next `\n`, or the end.
pub open spec fn line_end_at(s: Seq<char>, i: int) -> int
    decreases s.len() - i,
{
    if i < 0 || i >= s.len() || s[i] == '\n' {
        i
    } else {
        line_end_at(s, i + 1)
    }
}

/// The lines of the text from `i` on, as spans without their line ending
/// (a `\r` before the `\n` included).
pub open spec fn lines_from(s: Seq<char>, i: int) -> Seq<(int, int)>
    decreases s.len() - i,
{
    if i < 0 || i >= s.len() {
        Seq::empty()
    } else {
        let e = line_end_at(s, i);
        let stop = if i < e < s.len() && s[e - 1] == '\r' {
            e - 1
        } else {
            e
        };
        if e < i {
            Seq::empty()
        } else if e >= s.len() {
            seq![(i, stop)]
        } else {
            seq![(i, stop)] + lines_from(s, e + 1)
        }
    }
}

/// The first position at or after `i`, before `b`, that holds `c`; `b` if
/// none does.
pub open spec fn find_char(s: Seq<char>, i: int, b: int, c: char) -> int
    decreases b - i,
{
    if i >= b || s[i] == c {
        i
    } else {
        find_char(s, i + 1, b, c)
    }
}

/// How many times `c` occurs in `s[a..b]`.
pub open spec fn char_count(s: Seq<char>, a: int, b: int, c: char) -> nat
    decreases b - a,
{
    if b <= a {
        0
    } else {
        char_count(s, a, b - 1, c) + if s[b - 1] == c {
            1nat
        } else {
            0
        }
    }
}

/// The number that `s[a..b]` writes as an `i64`: an optional sign, then
/// one or more decimal digits.
pub open spec fn i64_value(s: Seq<char>, a: int, b: int) -> Option<i64> {
    let neg = a < b && s[a] == '-';
    let d = if a < b && (s[a] == '-' || s[a] == '+') {
        a + 1
    } else {
        a
    };
    if d >= b {
        None
    } else {
        match digits_value(s, d, b, 10) {
            Some(v) => if neg && v <= 0x8000_0000_0000_0000 {
                Some((-v) as i64)
            } else if !neg && v <= 0x7fff_ffff_ffff_ffff {
                Some(v as i64)
            } else {
                None
            },
            None => None,
        }
    }
}

/// What one line `s[a..b]` of a listing says: `dir:NAME` or
/// `file:NAME,SIZE,LAST_OPENED` after any indentation, as (is a directory,
/// name, size, last opened); anything else says nothing.
pub open spec fn line_entry(s: Seq<char>, a: int, b: int) -> Option<
    (bool, Seq<char>, Option<i64>, Option<i64>),
> {
    let c0 = skip_space(s.subrange(a, b), 0) + a;
    let colon = find_char(s, c0, b, ':');
    if colon >= b {
        None
    } else {
        let kind = s.subrange(c0, colon);
        if kind == "dir"@ {
            Some((true, s.subrange(colon + 1, b), None, None))
        } else if kind == "file"@ && char_count(s, colon + 1, b, ',') == 2 {
            let c1 = find_char(s, colon + 1, b, ',');
            let c2 = find_char(s, c1 + 1, b, ',');
            Some(
                (
                    false,
                    s.subrange(colon + 1, c1),
                    i64_value(s, c1 + 1, c2),
                    i64_value(s, c2 + 1, b),
                ),
            )
        } else {
            None
        }
    }
}

/// The depth of a line: its leading spaces, two per level.
pub open spec fn line_depth(s: Seq<char>, a: int, b: int) -> int {
    (find_not_space(s, a, b) - a) / 2
}

/// The first position at or after `i`, before `b`, that is not a space.
pub open spec fn find_not_space(s: Seq<char>, i: int, b: int) -> int
    decreases b - i,
{
    if i >= b || s[i] != ' ' {
        i
    } else {
        find_not_space(s, i + 1, b)
    }
}

/// An entry as (is a directory, name, size, last opened, parent).
pub type EntryView = (bool, Seq<char>, Option<i64>, Option<i64>, Option<int>);

/// The entries of the first `n` lines, with the stack of open directories
/// after them: each entry's parent is the innermost open directory less
/// deep than it.
pub open spec fn listing_state(s: Seq<char>, lines: Seq<(int, int)>, n: int) -> (
    Seq<EntryView>,
    Seq<int>,
)
    decreases n,
{
    if n <= 0 {
        (Seq::empty(), Seq::empty())
    } else {
        let (items, stack) = listing_state(s, lines, n - 1);
        let (a, b) = lines[n - 1];
        match line_entry(s, a, b) {
            None => (items, stack),
            Some(e) => {
                let depth = line_depth(s, a, b);
                let open = if stack.len() > depth {
                    stack.take(depth)
                } else {
                    stack
                };
                let parent = if open.len() == 0 {
                    None
                } else {
                    Some(open.last())
                };
                let next = if e.0 {
                    open.push(items.len() as int)
                } else {
                    open
                };
                (items.push((e.0, e.1, e.2, e.3, parent)), next)
            },
        }
    }
}

/// The entries a listing text describes.
pub open spec fn listing(s: Seq<char>) -> Seq<EntryView> {
    listing_state(s, lines_from(s, 0), lines_from(s, 0).len() as int).0
}

pub open spec fn item_view(f: &FileItem) -> EntryView {
    (
        f.item_type@ == "directory"@,
        f.name@,
        f.size,
        f.last_opened,
        match f.parent {
            Some(p) => Some(p as int),
            None => None,
        },
    )
}

/// Relies on String::push: the character is appended at the end.
#[verifier::external_body]
fn push_char(s: &mut String, c: char)
    ensures
        final(s)@ == old(s)@.push(c),
{
    s.push(c)
}

fn text_of(s: &Vec<char>, a: usize, b: usize) -> (r: String)
    requires
        a <= b <= s@.len(),
    ensures
        r@ == s@.subrange(a as int, b as int),
{
    let mut r = String::new();
    let mut i = a;
    while i < b
        invariant
            a <= i <= b <= s@.len(),
            r@ == s@.subrange(a as int, i as int),
        decreases b - i,
    {
        push_char(&mut r, s[i]);
        i += 1;
        assert(r@ =~= s@.subrange(a as int, i as int));
    }
    r
}

fn find_char_at(s: &Vec<char>, i: usize, b: usize, c: char) -> (r: usize)
    requires
        i <= b <= s@.len(),
    ensures
        r == find_char(s@, i as int, b as int, c),
        i <= r <= b,
{
    let mut k = i;
    while k < b && s[k] != c
        invariant
            i <= k <= b <= s@.len(),
            find_char(s@, k as int, b as int, c) == find_char(s@, i as int, b as int, c),
        decreases b - k,
    {
        k += 1;
    }
    k
}

fn count_char(s: &Vec<char>, a: usize, b: usize, c: char) -> (r: usize)
    requires
        a <= b <= s@.len(),
    ensures
        r == char_count(s@, a as int, b as int, c),
{
    let mut n: usize = 0;
    let mut k = a;
    while k < b
        invariant
            a <= k <= b <= s@.len(),
            n == char_count(s@, a as int, k as int, c),
            n <= k - a,
        decreases b - k,
    {
        if s[k] == c {
            n += 1;
        }
        k += 1;
    }
    n
}

fn i64_at(s: &Vec<char>, a: usize, b: usize) -> (r: Option<i64>)
    requires
        a <= b <= s@.len(),
    ensures
        r == i64_value(s@, a as int, b as int),
{
    let neg = a < b && s[a] == '-';
    let d = if a < b && (s[a] == '-' || s[a] == '+') {
        a + 1
    } else {
        a
    };
    if d >= b {
        return None;
    }
    match crate::resolve::dec_digits_number(s, d, b) {
        Some(v) => {
            if neg && v <= 0x8000_0000_0000_0000 {
                if v == 0x8000_0000_0000_0000 {
                    Some(i64::MIN)
                } else {
                    Some(-(v as i64))
                }
            } else if !neg && v <= 0x7fff_ffff_ffff_ffff {
                Some(v as i64)
            } else {
                None
            }
        },
        None => None,
    }
}

fn same_chars(s: &Vec<char>, a: usize, b: usize, lit: &str) -> (r: bool)
    requires
        a <= b <= s@.len(),
    ensures
        r == (s@.subrange(a as int, b as int) == lit@),
{
    let t = crate::resolve::chars_of_text(lit);
    if b - a != t.len() {
        return false;
    }
    let mut k: usize = 0;
    while k < t.len()
        invariant
            a <= b <= s@.len(),
            b - a == t@.len(),
            t@ == lit@,
            k <= t@.len(),
            forall|x: int| 0 <= x < k ==> s@[a + x] == t@[x],
        decreases t@.len() - k,
    {
        if s[a + k] != t[k] {
            assert(s@.subrange(a as int, b as int)[k as int] != lit@[k as int]);
            return false;
        }
        k += 1;
    }
    assert(s@.subrange(a as int, b as int) =~= lit@);
    true
}

proof fn lemma_skip_space_sub(s: Seq<char>, a: int, b: int, i: int)
    requires
        0 <= a <= b <= s.len(),
        0 <= i <= b - a,
    ensures
        skip_space(s.subrange(a, b), i) + a == skip_to(s, a + i, b),
        a + i <= skip_to(s, a + i, b) <= b,
    decreases b - a - i,
{
    if i < b - a && is_space(s[a + i]) {
        assert(s.subrange(a, b)[i] == s[a + i]);
        lemma_skip_space_sub(s, a, b, i + 1);
    } else if i < b - a {
        assert(s.subrange(a, b)[i] == s[a + i]);
    }
}

/// The first position at or after `i`, before `b`, that is not white space.
pub open spec fn skip_to(s: Seq<char>, i: int, b: int) -> int
    decreases b - i,
{
    if i >= b || !is_space(s[i]) {
        i
    } else {
        skip_to(s, i + 1, b)
    }
}

proof fn lemma_count_front(s: Seq<char>, a: int, b: int, c: char)
    requires
        0 <= a < b <= s.len(),
    ensures
        char_count(s, a, b, c) == (if s[a] == c {
            1nat
        } else {
            0nat
        }) + char_count(s, a + 1, b, c),
    decreases b - a,
{
    let x: nat = if s[b - 1] == c {
        1
    } else {
        0
    };
    assert(char_count(s, a, b, c) == char_count(s, a, b - 1, c) + x);
    if b > a + 1 {
        assert(char_count(s, a + 1, b, c) == char_count(s, a + 1, b - 1, c) + x);
        lemma_count_front(s, a, b - 1, c);
    } else {
        assert(char_count(s, a, a, c) == 0);
    }
}

proof fn lemma_count_find(s: Seq<char>, a: int, b: int, c: char)
    requires
        0 <= a <= b <= s.len(),
    ensures
        find_char(s, a, b, c) < b ==> char_count(s, a, b, c) == 1 + char_count(
            s,
            find_char(s, a, b, c) + 1,
            b,
            c,
        ),
        find_char(s, a, b, c) >= b ==> char_count(s, a, b, c) == 0,
        a <= find_char(s, a, b, c) <= b,
    decreases b - a,
{
    if a < b {
        lemma_count_front(s, a, b, c);
        if s[a] != c {
            lemma_count_find(s, a + 1, b, c);
        }
    }
}

fn entry_at(s: &Vec<char>, a: usize, b: usize) -> (r: Option<(bool, String, Option<i64>, Option<i64>)>)
    requires
        a <= b <= s@.len(),
    ensures
        r is None <==> line_entry(s@, a as int, b as int) is None,
        r matches Some(e) ==> line_entry(s@, a as int, b as int) == Some(
            (e.0, e.1@, e.2, e.3),
        ),
{
    let mut c0 = a;
    while c0 < b && (s[c0] == ' ' || s[c0] == '\t' || s[c0] == '\n' || s[c0] == '\r')
        invariant
            a <= c0 <= b <= s@.len(),
            skip_to(s@, c0 as int, b as int) == skip_to(s@, a as int, b as int),
        decreases b - c0,
    {
        c0 += 1;
    }
    proof {
        lemma_skip_space_sub(s@, a as int, b as int, 0);
    }
    let colon = find_char_at(s, c0, b, ':');
    if colon >= b {
        return None;
    }
    proof {
        reveal_strlit("dir");
        reveal_strlit("file");
    }
    if same_chars(s, c0, colon, "dir") {
        Some((true, text_of(s, colon + 1, b), None, None))
    } else if same_chars(s, c0, colon, "file") && count_char(s, colon + 1, b, ',') == 2 {
        let c1 = find_char_at(s, colon + 1, b, ',');
        proof {
            lemma_count_find(s@, colon + 1, b as int, ',');
        }
        let c2 = find_char_at(s, c1 + 1, b, ',');
        proof {
            lemma_count_find(s@, c1 + 1, b as int, ',');
        }
        Some((false, text_of(s, colon + 1, c1), i64_at(s, c1 + 1, c2), i64_at(s, c2 + 1, b)))
    } else {
        None
    }
}

fn depth_at(s: &Vec<char>, a: usize, b: usize) -> (r: usize)
    requires
        a <= b <= s@.len(),
    ensures
        r as int == line_depth(s@, a as int, b as int),
{
    let mut k = a;
    while k < b && s[k] == ' '
        invariant
            a <= k <= b <= s@.len(),
            find_not_space(s@, k as int, b as int) == find_not_space(s@, a as int, b as int),
        decreases b - k,
    {
        k += 1;
    }
    (k - a) / 2
}

/// The entries that a directory listing describes, in order: one line
/// each, `dir:NAME` or `file:NAME,SIZE,LAST_OPENED`, indented by two spaces
/// per level below the directory that holds it; other lines are ignored.
pub fn parse_directory_structure(raw_data: &str) -> (r: Vec<FileItem>)
    ensures
        r@.len() == listing(raw_data@).len(),
        forall|k: int| 0 <= k < r@.len() ==> item_view(&r@[k]) == listing(raw_data@)[k],
        forall|k: int|
            0 <= k < r@.len() ==> (#[trigger] r@[k]).item_type@ == "directory"@ || r@[k].item_type@
                == "file"@,
{
    let s = crate::resolve::chars_of_text(raw_data);
    let ghost lines = lines_from(s@, 0);
    let mut items: Vec<FileItem> = Vec::new();
    let mut stack: Vec<usize> = Vec::new();
    let mut i: usize = 0;
    let ghost mut n: int = 0;
    while i < s.len()
        invariant
            i <= s@.len(),
            s@ == raw_data@,
            lines == lines_from(s@, 0),
            0 <= n <= lines.len(),
            n + lines_from(s@, i as int).len() == lines.len(),
            forall|k: int|
                0 <= k < lines_from(s@, i as int).len() ==> lines[n + k] == #[trigger] lines_from(
                    s@,
                    i as int,
                )[k],
            items@.len() == listing_state(s@, lines, n).0.len(),
            forall|k: int|
                0 <= k < items@.len() ==> item_view(&items@[k]) == listing_state(s@, lines, n).0[k],
            forall|k: int|
                0 <= k < items@.len() ==> (#[trigger] items@[k]).item_type@ == "directory"@
                    || items@[k].item_type@ == "file"@,
            stack@.len() == listing_state(s@, lines, n).1.len(),
            forall|k: int|
                0 <= k < stack@.len() ==> stack@[k] as int == listing_state(s@, lines, n).1[k],
            forall|k: int| 0 <= k < stack@.len() ==> stack@[k] < items@.len(),
        decreases s@.len() - i,
    {
        let mut e = i;
        while e < s.len() && s[e] != '\n'
            invariant
                i <= e <= s@.len(),
                line_end_at(s@, e as int) == line_end_at(s@, i as int),
            decreases s@.len() - e,
        {
            e += 1;
        }
        let stop = if i < e && e < s.len() && s[e - 1] == '\r' {
            e - 1
        } else {
            e
        };
        proof {
            assert(line_end_at(s@, e as int) == e);
            if e >= s@.len() {
                assert(lines_from(s@, i as int) == seq![(i as int, stop as int)]);
            } else {
                assert(lines_from(s@, i as int) == seq![(i as int, stop as int)] + lines_from(
                    s@,
                    e + 1,
                ));
            }
            assert(lines[n] == lines_from(s@, i as int)[0]);
            assert(lines[n] == (i as int, stop as int));
        }
        match entry_at(&s, i, stop) {
            None => {},
            Some((is_dir, name, size, last)) => {
                let depth = depth_at(&s, i, stop);
                if stack.len() > depth {
                    stack.truncate(depth);
                }
                let parent = if stack.len() == 0 {
                    None
                } else {
                    Some(stack[stack.len() - 1])
                };
                let idx = items.len();
                let kind = if is_dir {
                    String::from_str("directory")
                } else {
                    String::from_str("file")
                };
                items.push(FileItem { item_type: kind, name, size, last_opened: last, parent });
                if is_dir {
                    stack.push(idx);
                }
                proof {
                    reveal_strlit("directory");
                    reveal_strlit("file");
                    assert("file"@ != "directory"@) by {
                        assert("file"@.len() != "directory"@.len());
                    }
                }
            },
        }
        proof {
            let next = listing_state(s@, lines, n + 1);
            assert(items@.len() == next.0.len());
            assert forall|k: int| 0 <= k < stack@.len() implies stack@[k] as int == next.1[k] by {}
        }
        if e >= s.len() {
            proof {
                assert(lines_from(s@, s@.len() as int).len() == 0);
                assert forall|k: int| 0 <= k < items@.len() implies item_view(&items@[k])
                    == listing_state(s@, lines, n + 1).0[k] by {}
                n = n + 1;
            }
            i = s.len();
        } else {
            proof {
                let rest = lines_from(s@, e + 1);
                assert forall|k: int| 0 <= k < rest.len() implies lines[n + 1 + k] == #[trigger] rest[k] by {
                    assert(lines_from(s@, i as int)[1 + k] == rest[k]);
                }
                assert forall|k: int| 0 <= k < items@.len() implies item_view(&items@[k])
                    == listing_state(s@, lines, n + 1).0[k] by {}
                n = n + 1;
            }
            i = e + 1;
        }
    }
    proof {
        assert(lines_from(s@, i as int).len() == 0);
    }
    items
}

} // verus!
