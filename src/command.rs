//! The interactive shell's command language: a line is split on spaces,
//! its first field names the command and the next two give parameters.
use vstd::prelude::*;
use vstd::string::StringSliceAdditionalSpecFns;

verus! {

/// One shell command, with its parameters already read.
#[derive(Debug, Clone, Copy, PartialEq, Eq, Structural)]
pub enum Command {
    Help,
    Root(usize, usize),
    Unroot,
    ArbRef(usize),
    LinkRef(usize, usize),
    AllocAt(usize),
    State,
    Populate,
    Gc,
    Exit,
    Unknown,
}

/// A one-byte White_Space character: tab, line feed, vertical tab, form
/// feed, carriage return or space.
pub open spec fn is_ascii_blank(b: u8) -> bool {
    b == 0x20 || (0x09 <= b && b <= 0x0d)
}

/// The second byte of a two-byte White_Space character after 0xc2:
/// U+0085 or U+00A0.
pub open spec fn is_narrow_blank_tail(b: u8) -> bool {
    b == 0x85 || b == 0xa0
}

/// A three-byte White_Space character: U+1680, U+2000 to U+200A, U+2028,
/// U+2029, U+202F, U+205F or U+3000.
pub open spec fn is_wide_blank(a: u8, b: u8, c: u8) -> bool {
    ||| (a == 0xe1 && b == 0x9a && c == 0x80)
    ||| (a == 0xe2 && b == 0x80 && ((0x80 <= c && c <= 0x8a) || c == 0xa8 || c == 0xa9 || c == 0xaf))
    ||| (a == 0xe2 && b == 0x81 && c == 0x9f)
    ||| (a == 0xe3 && b == 0x80 && c == 0x80)
}

pub open spec fn is_digit(b: u8) -> bool {
    0x30 <= b && b <= 0x39
}

/// The length of the UTF-8 encoded White_Space character that starts at
/// byte `i`, or 0 when none does.
pub open spec fn blank_len_at(s: Seq<u8>, i: int) -> int {
    if 0 <= i < s.len() && is_ascii_blank(s[i]) {
        1
    } else if 0 <= i && i + 1 < s.len() && s[i] == 0xc2 && is_narrow_blank_tail(s[i + 1]) {
        2
    } else if 0 <= i && i + 2 < s.len() && is_wide_blank(s[i], s[i + 1], s[i + 2]) {
        3
    } else {
        0
    }
}

/// The length of the UTF-8 encoded White_Space character that ends just
/// before byte `j`, or 0 when none does.
pub open spec fn blank_len_before(s: Seq<u8>, j: int) -> int {
    if 1 <= j <= s.len() && is_ascii_blank(s[j - 1]) {
        1
    } else if 2 <= j <= s.len() && s[j - 2] == 0xc2 && is_narrow_blank_tail(s[j - 1]) {
        2
    } else if 3 <= j <= s.len() && is_wide_blank(s[j - 3], s[j - 2], s[j - 1]) {
        3
    } else {
        0
    }
}

/// The first index at or after `i` where no White_Space character starts.
pub open spec fn lead(s: Seq<u8>, i: int) -> int
    decreases s.len() - i,
{
    if 0 <= i && blank_len_at(s, i) > 0 {
        lead(s, i + blank_len_at(s, i))
    } else {
        i
    }
}

/// The end of `s[..j]` with trailing White_Space characters dropped, never
/// before `lo`.
pub open spec fn trail(s: Seq<u8>, lo: int, j: int) -> int
    decreases j - lo,
{
    if blank_len_before(s, j) > 0 && j - blank_len_before(s, j) >= lo {
        trail(s, lo, j - blank_len_before(s, j))
    } else {
        j
    }
}

/// `s` without leading and trailing White_Space characters (every
/// character for which `char::is_whitespace` holds), for `s` valid UTF-8:
/// what `str::trim` gives.
pub open spec fn trimmed(s: Seq<u8>) -> Seq<u8> {
    s.subrange(lead(s, 0), trail(s, lead(s, 0), s.len() as int))
}

/// The number written by a string of decimal digits.
pub open spec fn digits_value(s: Seq<u8>) -> int
    decreases s.len(),
{
    if s.len() == 0 {
        0
    } else {
        digits_value(s.drop_last()) * 10 + (s.last() - 0x30)
    }
}

/// `s` without one leading `+`.
pub open spec fn unsigned_part(s: Seq<u8>) -> Seq<u8> {
    if s.len() > 0 && s[0] == 0x2b {
        s.subrange(1, s.len() as int)
    } else {
        s
    }
}

pub open spec fn all_digits(d: Seq<u8>) -> bool {
    forall|i: int| 0 <= i < d.len() ==> is_digit(#[trigger] d[i])
}

/// What `usize`'s `from_str` gives: an optional `+`, then one or more
/// decimal digits whose value fits.
pub open spec fn usize_of(s: Seq<u8>) -> Option<usize> {
    let d = unsigned_part(s);
    if d.len() > 0 && all_digits(d) && digits_value(d) <= usize::MAX {
        Some(digits_value(d) as usize)
    } else {
        None
    }
}

/// The pieces of `s` between single spaces (empty pieces included).
pub open spec fn fields(s: Seq<u8>) -> Seq<Seq<u8>>
    decreases s.len(),
{
    if s.len() == 0 {
        seq![Seq::empty()]
    } else {
        let f = fields(s.drop_last());
        if s.last() == 0x20 {
            f.push(Seq::empty())
        } else {
            f.update(f.len() - 1, f.last().push(s.last()))
        }
    }
}

/// Field `k` read as a number, or `default` when absent or unreadable.
pub open spec fn param_or(f: Seq<Seq<u8>>, k: int, default: usize) -> usize {
    if k < f.len() {
        match usize_of(trimmed(f[k])) {
            Some(v) => v,
            None => default,
        }
    } else {
        default
    }
}

/// The command named by `word`, with parameters `first` and `second`.
pub open spec fn keyword_command(word: Seq<u8>, first: usize, second: usize) -> Command {
    if word == seq![0x2du8, 0x2d, 0x68, 0x65, 0x6c, 0x70] {
        Command::Help
    } else if word == seq![0x2du8, 0x2d, 0x72, 0x6f, 0x6f, 0x74] {
        Command::Root(first, second)
    } else if word == seq![0x2du8, 0x2d, 0x75, 0x6e, 0x72, 0x6f, 0x6f, 0x74] {
        Command::Unroot
    } else if word == seq![0x2du8, 0x2d, 0x61, 0x72, 0x62, 0x5f, 0x72, 0x65, 0x66] {
        Command::ArbRef(first)
    } else if word == seq![0x2du8, 0x2d, 0x6c, 0x69, 0x6e, 0x6b, 0x5f, 0x72, 0x65, 0x66] {
        Command::LinkRef(first, second)
    } else if word == seq![0x2du8, 0x2d, 0x61, 0x6c, 0x6c, 0x6f, 0x63, 0x5f, 0x61, 0x74] {
        Command::AllocAt(first)
    } else if word == seq![0x2du8, 0x2d, 0x73, 0x74, 0x61, 0x74, 0x65] {
        Command::State
    } else if word == seq![0x2du8, 0x2d, 0x70, 0x6f, 0x70, 0x75, 0x6c, 0x61, 0x74, 0x65] {
        Command::Populate
    } else if word == seq![0x2du8, 0x2d, 0x67, 0x63] {
        Command::Gc
    } else if word == seq![0x2du8, 0x2d, 0x65, 0x78, 0x69, 0x74] {
        Command::Exit
    } else {
        Command::Unknown
    }
}

/// The command that `line` spells; a missing or unreadable first parameter
/// reads as 0 and a missing or unreadable second one as `last`.
pub open spec fn command_of(line: Seq<u8>, last: usize) -> Command {
    let f = fields(line);
    keyword_command(trimmed(f[0]), param_or(f, 1, 0), param_or(f, 2, last))
}

proof fn lemma_fields_nonempty(s: Seq<u8>)
    ensures
        fields(s).len() >= 1,
    decreases s.len(),
{
    if s.len() > 0 {
        lemma_fields_nonempty(s.drop_last());
    }
}

/// The length of the White_Space character that starts at byte `i`.
fn blank_at(s: &[u8], i: usize) -> (r: usize)
    ensures
        r == blank_len_at(s@, i as int),
{
    let n = s.len();
    if i < n && (s[i] == 0x20 || (0x09 <= s[i] && s[i] <= 0x0d)) {
        1
    } else if i < n && n - i > 1 && s[i] == 0xc2 && (s[i + 1] == 0x85 || s[i + 1] == 0xa0) {
        2
    } else if i < n && n - i > 2 && wide_blank(s[i], s[i + 1], s[i + 2]) {
        3
    } else {
        0
    }
}

/// The length of the White_Space character that ends just before byte `j`.
fn blank_before(s: &[u8], j: usize) -> (r: usize)
    requires
        j <= s@.len(),
    ensures
        r == blank_len_before(s@, j as int),
{
    if j >= 1 && (s[j - 1] == 0x20 || (0x09 <= s[j - 1] && s[j - 1] <= 0x0d)) {
        1
    } else if j >= 2 && s[j - 2] == 0xc2 && (s[j - 1] == 0x85 || s[j - 1] == 0xa0) {
        2
    } else if j >= 3 && wide_blank(s[j - 3], s[j - 2], s[j - 1]) {
        3
    } else {
        0
    }
}

fn wide_blank(a: u8, b: u8, c: u8) -> (r: bool)
    ensures
        r == is_wide_blank(a, b, c),
{
    (a == 0xe1 && b == 0x9a && c == 0x80) || (a == 0xe2 && b == 0x80 && ((0x80 <= c && c <= 0x8a)
        || c == 0xa8 || c == 0xa9 || c == 0xaf)) || (a == 0xe2 && b == 0x81 && c == 0x9f) || (a
        == 0xe3 && b == 0x80 && c == 0x80)
}

/// `s` without leading and trailing White_Space characters.
pub fn trim_bytes(s: &[u8]) -> (r: Vec<u8>)
    ensures
        r@ == trimmed(s@),
{
    let n = s.len();
    let mut i: usize = 0;
    let mut k: usize = blank_at(s, 0);
    while k > 0
        invariant
            i <= n == s@.len(),
            k == blank_len_at(s@, i as int),
            lead(s@, i as int) == lead(s@, 0),
        decreases n - i,
    {
        i = i + k;
        k = blank_at(s, i);
    }
    let mut j: usize = n;
    let mut k: usize = blank_before(s, n);
    while k > 0 && j - i >= k
        invariant
            i <= j <= n == s@.len(),
            lead(s@, 0) == i,
            k == blank_len_before(s@, j as int),
            trail(s@, i as int, j as int) == trail(s@, i as int, n as int),
        decreases j,
    {
        j = j - k;
        k = blank_before(s, j);
    }
    let mut r: Vec<u8> = Vec::new();
    let mut m: usize = i;
    while m < j
        invariant
            i <= m <= j <= n == s@.len(),
            r@ == s@.subrange(i as int, m as int),
        decreases j - m,
    {
        r.push(s[m]);
        m = m + 1;
        assert(r@ =~= s@.subrange(i as int, m as int));
    }
    r
}

proof fn lemma_digits_nonneg(s: Seq<u8>)
    requires
        forall|k: int| 0 <= k < s.len() ==> is_digit(#[trigger] s[k]),
    ensures
        0 <= digits_value(s),
    decreases s.len(),
{
    if s.len() > 0 {
        lemma_digits_nonneg(s.drop_last());
    }
}

proof fn lemma_digits_grow(s: Seq<u8>, i: int, j: int)
    requires
        0 <= i <= j <= s.len(),
        forall|k: int| 0 <= k < s.len() ==> is_digit(#[trigger] s[k]),
    ensures
        digits_value(s.subrange(0, i)) <= digits_value(s.subrange(0, j)),
    decreases j - i,
{
    if i < j {
        lemma_digits_grow(s, i, j - 1);
        assert(s.subrange(0, j).drop_last() =~= s.subrange(0, j - 1));
        lemma_digits_nonneg(s.subrange(0, j - 1));
    }
}

/// Reads a whole field as `usize` the way `from_str` does.
pub fn parse_usize(s: &[u8]) -> (r: Option<usize>)
    ensures
        r == usize_of(s@),
{
    let n = s.len();
    let start: usize = if n > 0 && s[0] == 0x2b { 1 } else { 0 };
    let ghost d = unsigned_part(s@);
    assert(d =~= s@.subrange(start as int, n as int));
    if start == n {
        return None;
    }
    let mut acc: usize = 0;
    let mut i: usize = start;
    while i < n
        invariant
            start <= i <= n == s@.len(),
            start < n,
            d == s@.subrange(start as int, n as int),
            d == unsigned_part(s@),
            forall|k: int| 0 <= k < i - start ==> is_digit(#[trigger] d[k]),
            acc == digits_value(d.subrange(0, i - start)),
        decreases n - i,
    {
        let b = s[i];
        if !(0x30 <= b && b <= 0x39) {
            assert(!is_digit(d[i - start]));
            assert(!all_digits(d));
            assert(usize_of(s@) is None);
            return None;
        }
        let digit = (b - 0x30) as usize;
        assert(d.subrange(0, i - start + 1).drop_last() =~= d.subrange(0, i - start as int));
        if acc > (usize::MAX - digit) / 10 {
            proof {
                assert(acc * 10 + digit > usize::MAX) by (nonlinear_arith)
                    requires
                        acc > (usize::MAX - digit) / 10,
                        digit <= 9,
                ;
                let k = i - start + 1;
                if all_digits(d) {
                    lemma_digits_grow(d, k as int, d.len() as int);
                    assert(d.subrange(0, d.len() as int) =~= d);
                    assert(digits_value(d.subrange(0, k as int)) == acc * 10 + digit);
                    assert(digits_value(d) > usize::MAX);
                }
                assert(usize_of(s@) is None);
            }
            return None;
        }
        assert(acc * 10 + digit <= usize::MAX) by (nonlinear_arith)
            requires
                acc <= (usize::MAX - digit) / 10,
                digit <= 9,
        ;
        acc = acc * 10 + digit;
        i = i + 1;
    }
    assert(d.subrange(0, d.len() as int) =~= d);
    Some(acc)
}

/// A parameter read as a number after trimming, or `default` when it is
/// absent or unreadable.
pub fn parse_param_to_usize(param: Option<&str>, default: usize) -> (r: usize)
    ensures
        r == match param {
            Some(p) => match usize_of(trimmed(p.spec_bytes())) {
                Some(v) => v,
                None => default,
            },
            None => default,
        },
{
    match param {
        Some(p) => {
            let t = trim_bytes(p.as_bytes());
            match parse_usize(t.as_slice()) {
                Some(v) => v,
                None => default,
            }
        },
        None => default,
    }
}

/// The pieces of `line` between single spaces.
fn split_fields(line: &[u8]) -> (r: Vec<Vec<u8>>)
    ensures
        r@.map_values(|v: Vec<u8>| v@) == fields(line@),
{
    let mut done: Vec<Vec<u8>> = Vec::new();
    let mut cur: Vec<u8> = Vec::new();
    let mut i: usize = 0;
    while i < line.len()
        invariant
            i <= line@.len(),
            done@.map_values(|v: Vec<u8>| v@).push(cur@) == fields(line@.subrange(0, i as int)),
        decreases line@.len() - i,
    {
        let b = line[i];
        let ghost pre = line@.subrange(0, i as int);
        let ghost next = line@.subrange(0, i + 1);
        assert(next.drop_last() =~= pre);
        proof {
            lemma_fields_nonempty(pre);
        }
        if b == 0x20 {
            let finished = cur;
            cur = Vec::new();
            done.push(finished);
            assert(done@.map_values(|v: Vec<u8>| v@).push(cur@) =~= fields(next));
        } else {
            cur.push(b);
            assert(done@.map_values(|v: Vec<u8>| v@).push(cur@) =~= fields(next));
        }
        i = i + 1;
    }
    assert(line@.subrange(0, line@.len() as int) =~= line@);
    done.push(cur);
    assert(done@.map_values(|v: Vec<u8>| v@) =~= fields(line@));
    done
}

/// Whether `word` is exactly `keyword`.
fn is_word(word: &Vec<u8>, keyword: &[u8]) -> (r: bool)
    ensures
        r == (word@ == keyword@),
{
    if word.len() != keyword.len() {
        return false;
    }
    let mut i: usize = 0;
    while i < word.len()
        invariant
            i <= word@.len() == keyword@.len(),
            forall|k: int| 0 <= k < i ==> word@[k] == keyword@[k],
        decreases word@.len() - i,
    {
        if word[i] != keyword[i] {
            return false;
        }
        i = i + 1;
    }
    assert(word@ =~= keyword@);
    true
}

/// Field `k` of `f` read as a number, or `default`.
fn param_value(f: &Vec<Vec<u8>>, k: usize, default: usize) -> (r: usize)
    ensures
        r == param_or(f@.map_values(|v: Vec<u8>| v@), k as int, default),
{
    if k < f.len() {
        let t = trim_bytes(f[k].as_slice());
        match parse_usize(t.as_slice()) {
            Some(v) => v,
            None => default,
        }
    } else {
        default
    }
}

/// Reads one shell line. `last` is what a missing second parameter reads
/// as (the heap's last index).
pub fn parse_command(line: &str, last: usize) -> (r: Command)
    ensures
        r == command_of(line.spec_bytes(), last),
{
    let bytes = line.as_bytes();
    let f = split_fields(bytes);
    proof {
        lemma_fields_nonempty(bytes@);
    }
    let word = trim_bytes(f[0].as_slice());
    let first = param_value(&f, 1, 0);
    let second = param_value(&f, 2, last);
    let help: [u8; 6] = [0x2d, 0x2d, 0x68, 0x65, 0x6c, 0x70];
    let root: [u8; 6] = [0x2d, 0x2d, 0x72, 0x6f, 0x6f, 0x74];
    let unroot: [u8; 8] = [0x2d, 0x2d, 0x75, 0x6e, 0x72, 0x6f, 0x6f, 0x74];
    let arb_ref: [u8; 9] = [0x2d, 0x2d, 0x61, 0x72, 0x62, 0x5f, 0x72, 0x65, 0x66];
    let link_ref: [u8; 10] = [0x2d, 0x2d, 0x6c, 0x69, 0x6e, 0x6b, 0x5f, 0x72, 0x65, 0x66];
    let alloc_at: [u8; 10] = [0x2d, 0x2d, 0x61, 0x6c, 0x6c, 0x6f, 0x63, 0x5f, 0x61, 0x74];
    let state: [u8; 7] = [0x2d, 0x2d, 0x73, 0x74, 0x61, 0x74, 0x65];
    let populate: [u8; 10] = [0x2d, 0x2d, 0x70, 0x6f, 0x70, 0x75, 0x6c, 0x61, 0x74, 0x65];
    let gc: [u8; 4] = [0x2d, 0x2d, 0x67, 0x63];
    let exit: [u8; 6] = [0x2d, 0x2d, 0x65, 0x78, 0x69, 0x74];
    assert(help@ =~= seq![0x2du8, 0x2d, 0x68, 0x65, 0x6c, 0x70]);
    assert(root@ =~= seq![0x2du8, 0x2d, 0x72, 0x6f, 0x6f, 0x74]);
    assert(unroot@ =~= seq![0x2du8, 0x2d, 0x75, 0x6e, 0x72, 0x6f, 0x6f, 0x74]);
    assert(arb_ref@ =~= seq![0x2du8, 0x2d, 0x61, 0x72, 0x62, 0x5f, 0x72, 0x65, 0x66]);
    assert(link_ref@ =~= seq![0x2du8, 0x2d, 0x6c, 0x69, 0x6e, 0x6b, 0x5f, 0x72, 0x65, 0x66]);
    assert(alloc_at@ =~= seq![0x2du8, 0x2d, 0x61, 0x6c, 0x6c, 0x6f, 0x63, 0x5f, 0x61, 0x74]);
    assert(state@ =~= seq![0x2du8, 0x2d, 0x73, 0x74, 0x61, 0x74, 0x65]);
    assert(populate@ =~= seq![0x2du8, 0x2d, 0x70, 0x6f, 0x70, 0x75, 0x6c, 0x61, 0x74, 0x65]);
    assert(gc@ =~= seq![0x2du8, 0x2d, 0x67, 0x63]);
    assert(exit@ =~= seq![0x2du8, 0x2d, 0x65, 0x78, 0x69, 0x74]);
    if is_word(&word, &help) {
        Command::Help
    } else if is_word(&word, &root) {
        Command::Root(first, second)
    } else if is_word(&word, &unroot) {
        Command::Unroot
    } else if is_word(&word, &arb_ref) {
        Command::ArbRef(first)
    } else if is_word(&word, &link_ref) {
        Command::LinkRef(first, second)
    } else if is_word(&word, &alloc_at) {
        Command::AllocAt(first)
    } else if is_word(&word, &state) {
        Command::State
    } else if is_word(&word, &populate) {
        Command::Populate
    } else if is_word(&word, &gc) {
        Command::Gc
    } else if is_word(&word, &exit) {
        Command::Exit
    } else {
        Command::Unknown
    }
}

} // verus!
