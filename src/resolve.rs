use vstd::prelude::*;

verus! {

/// A module of the target: its base address, size and name (often a path).
pub struct ModuleInfo {
    pub base: usize,
    pub size: i32,
    pub is_64bit: bool,
    pub modulename: String,
}

/// Why an address expression cannot be resolved.
#[derive(Clone, Copy, Debug, PartialEq, Eq, Structural)]
pub enum ResolveError {
    /// A term was expected: a bracket, a number or a module name.
    MissingTerm,
    /// A `[` without its `]`, or text left after the expression.
    UnbalancedBrackets,
    /// A word that starts with a digit is not a decimal or `0x` number
    /// that fits in 64 bits.
    InvalidNumber,
    /// A word that is neither a number nor the name of a module.
    UnknownModule,
    /// Reading the 8 bytes of a dereference failed.
    ReadFailed,
}

/// The next step of resolving an expression: read 8 bytes at an address,
/// or the resolved address, or a failure.
#[derive(Clone, Copy, Debug, PartialEq, Eq, Structural)]
pub enum ResolveStep {
    Read(u64),
    Done(u64),
    Failed(ResolveError),
}

pub open spec fn is_space(c: char) -> bool {
    c == ' ' || c == '\t' || c == '\n' || c == '\r'
}

/// Characters that end a word.
pub open spec fn is_delim(c: char) -> bool {
    is_space(c) || c == '[' || c == ']' || c == '+' || c == '-'
}

/// The first position at or after `i` that is not white space.
pub open spec fn skip_space(s: Seq<char>, i: int) -> int
    decreases s.len() - i,
{
    if i < 0 || i >= s.len() || !is_space(s[i]) {
        i
    } else {
        skip_space(s, i + 1)
    }
}

/// The end of the word that starts at `i`.
pub open spec fn word_end(s: Seq<char>, i: int) -> int
    decreases s.len() - i,
{
    if i < 0 || i >= s.len() || is_delim(s[i]) {
        i
    } else {
        word_end(s, i + 1)
    }
}

pub open spec fn ascii_lower(c: char) -> char {
    if 'A' <= c && c <= 'Z' {
        ((c as u32) + 32) as char
    } else {
        c
    }
}

/// Equal but for the case of ASCII letters.
pub open spec fn same_ignoring_case(a: Seq<char>, b: Seq<char>) -> bool {
    a.len() == b.len() && forall|i: int| 0 <= i < a.len() ==> ascii_lower(#[trigger] a[i]) == ascii_lower(b[i])
}

/// The position after the last path separator of a name, 0 if none.
pub open spec fn base_start(name: Seq<char>, n: int) -> int
    decreases n,
{
    if n <= 0 {
        0
    } else if name[n - 1] == '/' || name[n - 1] == '\\' {
        n
    } else {
        base_start(name, n - 1)
    }
}

/// The last component of a module's path.
pub open spec fn basename(name: Seq<char>) -> Seq<char> {
    name.subrange(base_start(name, name.len() as int), name.len() as int)
}

/// Whether the word names the module: by its full name, or by its
/// basename, ignoring case.
pub open spec fn names_module(w: Seq<char>, m: ModuleInfo, full: bool) -> bool {
    if full {
        same_ignoring_case(w, m.modulename@)
    } else {
        same_ignoring_case(w, basename(m.modulename@))
    }
}

/// The base of the first module among the first `n` that the word names,
/// by full name or by basename.
pub open spec fn module_match(mods: Seq<ModuleInfo>, w: Seq<char>, n: int, full: bool) -> Option<
    u64,
>
    decreases n,
{
    if n <= 0 {
        None
    } else {
        match module_match(mods, w, n - 1, full) {
            Some(b) => Some(b),
            None => if names_module(w, mods[n - 1], full) {
                Some(mods[n - 1].base as u64)
            } else {
                None
            },
        }
    }
}

/// The base of the module a word names: a full-name match wins over a
/// basename match, and among equals the first module.
pub open spec fn module_base(mods: Seq<ModuleInfo>, w: Seq<char>) -> Option<u64> {
    match module_match(mods, w, mods.len() as int, true) {
        Some(b) => Some(b),
        None => module_match(mods, w, mods.len() as int, false),
    }
}

pub open spec fn digit_value(c: char, radix: nat) -> Option<nat> {
    if '0' <= c && c <= '9' && (c as nat) - 48 < radix {
        Some(((c as nat) - 48) as nat)
    } else if radix == 16 && 'a' <= c && c <= 'f' {
        Some(((c as nat) - 87) as nat)
    } else if radix == 16 && 'A' <= c && c <= 'F' {
        Some(((c as nat) - 55) as nat)
    } else {
        None
    }
}

/// The value of the digits `s[i..j]` in the radix, if all are digits.
pub open spec fn digits_value(s: Seq<char>, i: int, j: int, radix: nat) -> Option<nat>
    decreases j - i,
{
    if j <= i {
        Some(0)
    } else {
        match (digits_value(s, i, j - 1, radix), digit_value(s[j - 1], radix)) {
            (Some(v), Some(d)) => Some(v * radix + d),
            _ => None,
        }
    }
}

/// The number that the word `s[i..j]` writes: decimal, or hex after `0x`;
/// `None` when it is not one or does not fit in 64 bits.
pub open spec fn number_value(s: Seq<char>, i: int, j: int) -> Option<u64> {
    let v = if j - i > 2 && s[i] == '0' && s[i + 1] == 'x' {
        digits_value(s, i + 2, j, 16)
    } else if j - i > 0 {
        digits_value(s, i, j, 10)
    } else {
        None
    };
    match v {
        Some(n) => if n <= u64::MAX {
            Some(n as u64)
        } else {
            None
        },
        None => None,
    }
}

/// What the word `s[i..j]` stands for: a number if it starts with a digit,
/// else the base of the module it names.
pub open spec fn word_value(s: Seq<char>, i: int, j: int, mods: Seq<ModuleInfo>) -> ResolveStep {
    if '0' <= s[i] && s[i] <= '9' {
        match number_value(s, i, j) {
            Some(v) => ResolveStep::Done(v),
            None => ResolveStep::Failed(ResolveError::InvalidNumber),
        }
    } else {
        match module_base(mods, s.subrange(i, j)) {
            Some(b) => ResolveStep::Done(b),
            None => ResolveStep::Failed(ResolveError::UnknownModule),
        }
    }
}

pub open spec fn wrap_add(a: u64, b: u64) -> u64 {
    if a + b > u64::MAX {
        (a + b - 0x1_0000_0000_0000_0000) as u64
    } else {
        (a + b) as u64
    }
}

pub open spec fn wrap_sub(a: u64, b: u64) -> u64 {
    if a >= b {
        (a - b) as u64
    } else {
        (a - b + 0x1_0000_0000_0000_0000) as u64
    }
}

/// A term from position `i`, with the values of the first `used` of the
/// dereference reads in `ans` spent: its outcome, where it ends, and how
/// many reads it has spent. A dereference whose read is not among `ans`
/// asks for it.
pub open spec fn eval_term(
    s: Seq<char>,
    i: int,
    mods: Seq<ModuleInfo>,
    ans: Seq<u64>,
    used: nat,
) -> (ResolveStep, int, nat)
    decreases s.len() - i, 0nat,
{
    let j = skip_space(s, i);
    if i < 0 || j < i || j >= s.len() {
        (ResolveStep::Failed(ResolveError::MissingTerm), j, used)
    } else if s[j] == '[' {
        let (o, p, u) = eval_expr(s, j + 1, mods, ans, used);
        if !(o is Done) {
            (o, p, u)
        } else {
            let k = skip_space(s, p);
            if 0 <= k < s.len() && s[k] == ']' {
                if u < ans.len() {
                    (ResolveStep::Done(ans[u as int]), k + 1, u + 1)
                } else {
                    (ResolveStep::Read(o->Done_0), k + 1, u)
                }
            } else {
                (ResolveStep::Failed(ResolveError::UnbalancedBrackets), k, u)
            }
        }
    } else if is_delim(s[j]) {
        (ResolveStep::Failed(ResolveError::MissingTerm), j, used)
    } else {
        let e = word_end(s, j);
        (word_value(s, j, e, mods), e, used)
    }
}

/// The rest of a sum after its first term, whose value so far is `acc`.
pub open spec fn eval_sum(
    s: Seq<char>,
    i: int,
    acc: u64,
    mods: Seq<ModuleInfo>,
    ans: Seq<u64>,
    used: nat,
) -> (ResolveStep, int, nat)
    decreases s.len() - i, 1nat,
{
    let k = skip_space(s, i);
    if 0 <= i <= k < s.len() && (s[k] == '+' || s[k] == '-') {
        let (o, p, u) = eval_term(s, k + 1, mods, ans, used);
        match o {
            ResolveStep::Done(v) => {
                let next = if s[k] == '+' {
                    wrap_add(acc, v)
                } else {
                    wrap_sub(acc, v)
                };
                if p <= k || p > s.len() {
                    (ResolveStep::Failed(ResolveError::MissingTerm), p, u)
                } else {
                    eval_sum(s, p, next, mods, ans, u)
                }
            },
            _ => (o, p, u),
        }
    } else {
        (ResolveStep::Done(acc), i, used)
    }
}

/// An expression from position `i`: a term, then terms added or taken away.
pub open spec fn eval_expr(
    s: Seq<char>,
    i: int,
    mods: Seq<ModuleInfo>,
    ans: Seq<u64>,
    used: nat,
) -> (ResolveStep, int, nat)
    decreases s.len() - i, 2nat,
{
    let (o, p, u) = eval_term(s, i, mods, ans, used);
    match o {
        ResolveStep::Done(v) => if p <= i || p > s.len() {
            (ResolveStep::Failed(ResolveError::MissingTerm), p, u)
        } else {
            eval_sum(s, p, v, mods, ans, u)
        },
        _ => (o, p, u),
    }
}

/// The step that resolving `s` is at, given the values `ans` that the
/// dereferences read so far, in the order they were asked for: the next
/// read, the address, or why it fails.
pub open spec fn resolution(s: Seq<char>, mods: Seq<ModuleInfo>, ans: Seq<u64>) -> ResolveStep {
    let (o, p, u) = eval_expr(s, 0, mods, ans, 0);
    match o {
        ResolveStep::Done(v) => if skip_space(s, p) == s.len() {
            o
        } else {
            ResolveStep::Failed(ResolveError::UnbalancedBrackets)
        },
        _ => o,
    }
}

fn chars_of(s: &str) -> (r: Vec<char>)
    ensures
        r@ == s@,
{
    let mut r: Vec<char> = Vec::new();
    for c in it: s.chars()
        invariant
            it.seq() == s@,
            r@ == it.seq().take(it.index() as int),
    {
        r.push(c);
        assert(r@ =~= it.seq().take(it.index() + 1));
    }
    assert(r@ =~= s@);
    r
}

fn is_space_char(c: char) -> (r: bool)
    ensures
        r == is_space(c),
{
    c == ' ' || c == '\t' || c == '\n' || c == '\r'
}

fn is_delim_char(c: char) -> (r: bool)
    ensures
        r == is_delim(c),
{
    is_space_char(c) || c == '[' || c == ']' || c == '+' || c == '-'
}

fn skip_spaces(s: &Vec<char>, i: usize) -> (r: usize)
    requires
        i <= s@.len(),
    ensures
        r == skip_space(s@, i as int),
        i <= r <= s@.len(),
{
    let mut j = i;
    while j < s.len() && is_space_char(s[j])
        invariant
            i <= j <= s@.len(),
            skip_space(s@, j as int) == skip_space(s@, i as int),
        decreases s@.len() - j,
    {
        j += 1;
    }
    j
}

fn word_end_at(s: &Vec<char>, i: usize) -> (r: usize)
    requires
        i <= s@.len(),
    ensures
        r == word_end(s@, i as int),
        i <= r <= s@.len(),
        i < s@.len() && !is_delim(s@[i as int]) ==> r > i,
{
    let mut j = i;
    while j < s.len() && !is_delim_char(s[j])
        invariant
            i <= j <= s@.len(),
            word_end(s@, j as int) == word_end(s@, i as int),
        decreases s@.len() - j,
    {
        j += 1;
    }
    j
}

fn lower_char(c: char) -> (r: char)
    ensures
        r == ascii_lower(c),
{
    if 'A' <= c && c <= 'Z' {
        ((c as u32) + 32) as u8 as char
    } else {
        c
    }
}

/// Whether `w[i..j]` equals `name[from..]` but for the case of ASCII letters.
fn matches_ignoring_case(w: &Vec<char>, i: usize, j: usize, name: &Vec<char>, from: usize) -> (r: bool)
    requires
        i <= j <= w@.len(),
        from <= name@.len(),
    ensures
        r == same_ignoring_case(w@.subrange(i as int, j as int), name@.subrange(from as int, name@.len() as int)),
{
    let ghost a = w@.subrange(i as int, j as int);
    let ghost b = name@.subrange(from as int, name@.len() as int);
    let nlen = name.len();
    let limit = nlen - from;
    if j - i != limit {
        return false;
    }
    let mut k: usize = 0;
    while k < limit
        invariant
            i <= j <= w@.len(),
            from <= name@.len(),
            limit == name@.len() - from,
            from + limit == name@.len(),
            nlen == name@.len(),
            j - i == limit,
            a == w@.subrange(i as int, j as int),
            b == name@.subrange(from as int, name@.len() as int),
            k <= j - i,
            forall|x: int| 0 <= x < k ==> ascii_lower(#[trigger] a[x]) == ascii_lower(b[x]),
        decreases limit - k,
    {
        if lower_char(w[i + k]) != lower_char(name[from + k]) {
            assert(ascii_lower(a[k as int]) != ascii_lower(b[k as int]));
            return false;
        }
        k += 1;
    }
    true
}

fn base_start_of(name: &Vec<char>) -> (r: usize)
    ensures
        r == base_start(name@, name@.len() as int),
        r <= name@.len(),
{
    let mut n = name.len();
    while n > 0 && name[n - 1] != '/' && name[n - 1] != '\\'
        invariant
            n <= name@.len(),
            base_start(name@, n as int) == base_start(name@, name@.len() as int),
        decreases n,
    {
        n -= 1;
    }
    n
}

fn find_module_match(w: &Vec<char>, i: usize, j: usize, mods: &Vec<ModuleInfo>, full: bool) -> (r:
    Option<u64>)
    requires
        i <= j <= w@.len(),
    ensures
        r == module_match(mods@, w@.subrange(i as int, j as int), mods@.len() as int, full),
{
    let ghost word = w@.subrange(i as int, j as int);
    let mut k: usize = 0;
    while k < mods.len()
        invariant
            k <= mods@.len(),
            i <= j <= w@.len(),
            word == w@.subrange(i as int, j as int),
            module_match(mods@, word, k as int, full) is None,
        decreases mods@.len() - k,
    {
        let name = chars_of(mods[k].modulename.as_str());
        let start = if full {
            0
        } else {
            base_start_of(&name)
        };
        if matches_ignoring_case(w, i, j, &name, start) {
            proof {
                assert(name@.subrange(0, name@.len() as int) =~= name@);
                assert(names_module(word, mods@[k as int], full));
                assert(module_match(mods@, word, k + 1, full) == Some(mods@[k as int].base as u64));
                lemma_module_match_stays(mods@, word, k + 1, mods@.len() as int, full);
            }
            return Some(mods[k].base as u64);
        }
        proof {
            assert(name@.subrange(0, name@.len() as int) =~= name@);
        }
        k += 1;
    }
    None
}

fn find_module_base(w: &Vec<char>, i: usize, j: usize, mods: &Vec<ModuleInfo>) -> (r: Option<u64>)
    requires
        i <= j <= w@.len(),
    ensures
        r == module_base(mods@, w@.subrange(i as int, j as int)),
{
    match find_module_match(w, i, j, mods, true) {
        Some(b) => Some(b),
        None => find_module_match(w, i, j, mods, false),
    }
}

proof fn lemma_module_match_stays(mods: Seq<ModuleInfo>, w: Seq<char>, k: int, n: int, full: bool)
    requires
        0 <= k <= n,
        module_match(mods, w, k, full) is Some,
    ensures
        module_match(mods, w, n, full) == module_match(mods, w, k, full),
    decreases n - k,
{
    if k < n {
        lemma_module_match_stays(mods, w, k, n - 1, full);
    }
}

fn digit_of(c: char, radix: u32) -> (r: Option<u32>)
    requires
        radix == 10 || radix == 16,
    ensures
        r matches Some(d) ==> digit_value(c, radix as nat) == Some(d as nat),
        r is None ==> digit_value(c, radix as nat) is None,
{
    if '0' <= c && c <= '9' && (c as u32) - 48 < radix {
        Some((c as u32) - 48)
    } else if radix == 16 && 'a' <= c && c <= 'f' {
        Some((c as u32) - 87)
    } else if radix == 16 && 'A' <= c && c <= 'F' {
        Some((c as u32) - 55)
    } else {
        None
    }
}

proof fn lemma_digits_grow(s: Seq<char>, i: int, k: int, j: int, radix: nat)
    requires
        i <= k <= j,
        radix >= 1,
        digits_value(s, i, k, radix) is Some,
        digits_value(s, i, j, radix) is Some,
    ensures
        digits_value(s, i, j, radix)->Some_0 >= digits_value(s, i, k, radix)->Some_0,
    decreases j - k,
{
    if k < j {
        lemma_digits_grow(s, i, k, j - 1, radix);
        let v = digits_value(s, i, j - 1, radix)->Some_0;
        assert(v * radix >= v) by (nonlinear_arith)
            requires
                radix >= 1,
        ;
    }
}

/// The number that `s[i..j]` writes, in the radix, if it is all digits and
/// fits in 64 bits.
fn digits_number(s: &Vec<char>, i: usize, j: usize, radix: u32) -> (r: Option<u64>)
    requires
        i <= j <= s@.len(),
        radix == 10 || radix == 16,
    ensures
        r matches Some(v) ==> digits_value(s@, i as int, j as int, radix as nat) == Some(v as nat),
        r is None ==> (digits_value(s@, i as int, j as int, radix as nat) is None
            || digits_value(s@, i as int, j as int, radix as nat)->Some_0 > u64::MAX),
{
    let mut v: u128 = 0;
    let mut k: usize = i;
    while k < j
        invariant
            i <= k <= j <= s@.len(),
            radix == 10 || radix == 16,
            v <= u64::MAX,
            digits_value(s@, i as int, k as int, radix as nat) == Some(v as nat),
        decreases j - k,
    {
        match digit_of(s[k], radix) {
            Some(d) => {
                assert(v * (radix as u128) <= 0xffff_ffff_ffff_ffff * 16) by (nonlinear_arith)
                    requires
                        v <= 0xffff_ffff_ffff_ffff,
                        radix <= 16,
                ;
                let nv = v * (radix as u128) + (d as u128);
                assert(digits_value(s@, i as int, k + 1, radix as nat) == Some(nv as nat));
                if nv > u64::MAX as u128 {
                    proof {
                        if digits_value(s@, i as int, j as int, radix as nat) is Some {
                            lemma_digits_grow(s@, i as int, k + 1, j as int, radix as nat);
                        }
                    }
                    return None;
                }
                v = nv;
            },
            None => {
                proof {
                    lemma_digits_none_stays(s@, i as int, k + 1, j as int, radix as nat);
                }
                return None;
            },
        }
        k += 1;
    }
    Some(v as u64)
}

proof fn lemma_digits_none_stays(s: Seq<char>, i: int, k: int, j: int, radix: nat)
    requires
        i <= k <= j,
        digits_value(s, i, k, radix) is None,
    ensures
        digits_value(s, i, j, radix) is None,
    decreases j - k,
{
    if k < j {
        lemma_digits_none_stays(s, i, k, j - 1, radix);
    }
}

fn word_value_of(s: &Vec<char>, i: usize, j: usize, mods: &Vec<ModuleInfo>) -> (r: ResolveStep)
    requires
        i < j <= s@.len(),
    ensures
        r == word_value(s@, i as int, j as int, mods@),
{
    if '0' <= s[i] && s[i] <= '9' {
        let v = if j - i > 2 && s[i] == '0' && s[i + 1] == 'x' {
            digits_number(s, i + 2, j, 16)
        } else {
            digits_number(s, i, j, 10)
        };
        match v {
            Some(n) => ResolveStep::Done(n),
            None => ResolveStep::Failed(ResolveError::InvalidNumber),
        }
    } else {
        match find_module_base(s, i, j, mods) {
            Some(b) => ResolveStep::Done(b),
            None => ResolveStep::Failed(ResolveError::UnknownModule),
        }
    }
}

fn add_wrapping(a: u64, b: u64) -> (r: u64)
    ensures
        r == wrap_add(a, b),
{
    if a > u64::MAX - b {
        b - (u64::MAX - a) - 1
    } else {
        a + b
    }
}

fn sub_wrapping(a: u64, b: u64) -> (r: u64)
    ensures
        r == wrap_sub(a, b),
{
    if a >= b {
        a - b
    } else {
        u64::MAX - (b - a) + 1
    }
}

fn term_at(s: &Vec<char>, i: usize, mods: &Vec<ModuleInfo>, ans: &Vec<u64>, used: usize) -> (r: (
    ResolveStep,
    usize,
    usize,
))
    requires
        i <= s@.len(),
        used <= ans@.len(),
    ensures
        (r.0, r.1 as int, r.2 as nat) == eval_term(s@, i as int, mods@, ans@, used as nat),
        r.2 <= ans@.len(),
    decreases s@.len() - i, 0nat,
{
    let j = skip_spaces(s, i);
    if j >= s.len() {
        return (ResolveStep::Failed(ResolveError::MissingTerm), j, used);
    }
    if s[j] == '[' {
        let (o, p, u) = expr_at(s, j + 1, mods, ans, used);
        match o {
            ResolveStep::Done(v) => {
                if p > s.len() {
                    return (ResolveStep::Failed(ResolveError::UnbalancedBrackets), p, u);
                }
                let k = skip_spaces(s, p);
                if k < s.len() && s[k] == ']' {
                    if u < ans.len() {
                        (ResolveStep::Done(ans[u]), k + 1, u + 1)
                    } else {
                        (ResolveStep::Read(v), k + 1, u)
                    }
                } else {
                    (ResolveStep::Failed(ResolveError::UnbalancedBrackets), k, u)
                }
            },
            _ => (o, p, u),
        }
    } else if is_delim_char(s[j]) {
        (ResolveStep::Failed(ResolveError::MissingTerm), j, used)
    } else {
        let e = word_end_at(s, j);
        (word_value_of(s, j, e, mods), e, used)
    }
}

fn sum_at(s: &Vec<char>, i: usize, acc: u64, mods: &Vec<ModuleInfo>, ans: &Vec<u64>, used: usize) -> (r: (
    ResolveStep,
    usize,
    usize,
))
    requires
        i <= s@.len(),
        used <= ans@.len(),
    ensures
        (r.0, r.1 as int, r.2 as nat) == eval_sum(s@, i as int, acc, mods@, ans@, used as nat),
        r.2 <= ans@.len(),
    decreases s@.len() - i, 1nat,
{
    let k = skip_spaces(s, i);
    if k < s.len() && (s[k] == '+' || s[k] == '-') {
        let (o, p, u) = term_at(s, k + 1, mods, ans, used);
        match o {
            ResolveStep::Done(v) => {
                let next = if s[k] == '+' {
                    add_wrapping(acc, v)
                } else {
                    sub_wrapping(acc, v)
                };
                if p <= k || p > s.len() {
                    (ResolveStep::Failed(ResolveError::MissingTerm), p, u)
                } else {
                    sum_at(s, p, next, mods, ans, u)
                }
            },
            _ => (o, p, u),
        }
    } else {
        (ResolveStep::Done(acc), i, used)
    }
}

fn expr_at(s: &Vec<char>, i: usize, mods: &Vec<ModuleInfo>, ans: &Vec<u64>, used: usize) -> (r: (
    ResolveStep,
    usize,
    usize,
))
    requires
        i <= s@.len(),
        used <= ans@.len(),
    ensures
        (r.0, r.1 as int, r.2 as nat) == eval_expr(s@, i as int, mods@, ans@, used as nat),
        r.2 <= ans@.len(),
    decreases s@.len() - i, 2nat,
{
    let (o, p, u) = term_at(s, i, mods, ans, used);
    match o {
        ResolveStep::Done(v) => {
            if p <= i || p > s.len() {
                (ResolveStep::Failed(ResolveError::MissingTerm), p, u)
            } else {
                sum_at(s, p, v, mods, ans, u)
            }
        },
        _ => (o, p, u),
    }
}

/// The step that resolving an address expression is at, given the values
/// that its dereferences read so far, in the order they were asked for.
/// Calling again with each value read appended leads to the address or to
/// a failure.
pub fn resolve_step(expr: &str, modules: &Vec<ModuleInfo>, answers: &Vec<u64>) -> (r: ResolveStep)
    ensures
        r == resolution(expr@, modules@, answers@),
{
    let s = chars_of(expr);
    let (o, p, _u) = expr_at(&s, 0, modules, answers, 0);
    match o {
        ResolveStep::Done(_) => {
            if p <= s.len() && skip_spaces(&s, p) == s.len() {
                o
            } else {
                if p > s.len() {
                    assert(skip_space(s@, p as int) == p);
                }
                ResolveStep::Failed(ResolveError::UnbalancedBrackets)
            }
        },
        _ => o,
    }
}

/// The characters of a text.
pub(crate) fn chars_of_text(s: &str) -> (r: Vec<char>)
    ensures
        r@ == s@,
{
    chars_of(s)
}

/// The number that the hex digits `s[i..j]` write, if they are all hex
/// digits and it fits in 64 bits.
pub(crate) fn hex_digits_number(s: &Vec<char>, i: usize, j: usize) -> (r: Option<u64>)
    requires
        i <= j <= s@.len(),
    ensures
        r == (match digits_value(s@, i as int, j as int, 16) {
            Some(v) => if v <= u64::MAX {
                Some(v as u64)
            } else {
                None
            },
            None => None,
        }),
{
    digits_number(s, i, j, 16)
}

/// The number that the decimal digits `s[i..j]` write, if they are all
/// digits and it fits in 64 bits.
pub(crate) fn dec_digits_number(s: &Vec<char>, i: usize, j: usize) -> (r: Option<u64>)
    requires
        i <= j <= s@.len(),
    ensures
        r == (match digits_value(s@, i as int, j as int, 10) {
            Some(v) => if v <= u64::MAX {
                Some(v as u64)
            } else {
                None
            },
            None => None,
        }),
{
    digits_number(s, i, j, 10)
}

} // verus!
