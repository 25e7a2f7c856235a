use crate::cfg::{
    nt_name, prims_view, prod_view, prods_view, GramV, Grammar, MetaControl, MusicPrimitive,
    MusicString, NonTerminal, PrimV, ProdV, Production, SymV, Symbol, TermV, Terminal,
    TerminalNote,
};
use crate::composition::{Instrument, Octave, Pitch, Volume};
use crate::time::{Beat, FracV, MtV, MusicTime};
use vstd::prelude::*;
use vstd::slice::{slice_subrange, slice_to_vec};
use vstd::string::StringSliceAdditionalSpecFns;

verus! {

/// A typed parse failure: a plain reason, or the two prefixes a dispatch
/// expected to see.
#[derive(Debug)]
pub enum ScanError {
    Generic(String),
    ExpectedEither(String, String),
}

pub type ScanPrefix = String;

/// A parser from a byte slice to a value and the unconsumed remainder.
/// `spec_scan` is the exact function the scanner computes, over deep views:
/// `None` means the scanner fails (or, for a repeating scanner, would not
/// return); `Some` gives the value's view and the remaining bytes.
pub trait Scanner: Sized {
    type Output: DeepView;

    spec fn spec_scan(&self, input: Seq<u8>) -> Option<
        (<Self::Output as DeepView>::V, Seq<u8>),
    >;

    /// Whether `spec_scan` describes this scanner; combinators built from
    /// opaque functions make no promise.
    spec fn scan_determined(&self) -> bool;

    fn scan<'a>(&self, input: &'a [u8]) -> (r: Result<(Self::Output, &'a [u8]), ScanError>)
        ensures
            self.scan_determined() ==> match self.spec_scan(input@) {
                Some(pair) => {
                    &&& r is Ok
                    &&& r->Ok_0.0.deep_view() == pair.0
                    &&& r->Ok_0.1@ == pair.1
                },
                None => r is Err,
            },
    ;
}

/// Whitespace bytes, as `char::is_whitespace` sees them in ASCII text.
pub open spec fn is_ws(b: u8) -> bool {
    b == 32 || b == 9 || b == 10 || b == 13 || b == 11 || b == 12
}

pub open spec fn is_alpha(b: u8) -> bool {
    (65 <= b <= 90) || (97 <= b <= 122)
}

pub open spec fn is_digit(b: u8) -> bool {
    48 <= b <= 57
}

pub open spec fn is_alnum(b: u8) -> bool {
    is_alpha(b) || is_digit(b)
}

fn is_ws_ex(b: u8) -> (r: bool)
    ensures
        r == is_ws(b),
{
    b == 32 || b == 9 || b == 10 || b == 13 || b == 11 || b == 12
}

fn is_alpha_ex(b: u8) -> (r: bool)
    ensures
        r == is_alpha(b),
{
    (65 <= b && b <= 90) || (97 <= b && b <= 122)
}

fn is_digit_ex(b: u8) -> (r: bool)
    ensures
        r == is_digit(b),
{
    48 <= b && b <= 57
}

/// The input without its leading whitespace.
pub open spec fn trim_start_bytes(s: Seq<u8>) -> Seq<u8>
    decreases s.len(),
{
    if s.len() > 0 && is_ws(s[0]) {
        trim_start_bytes(s.drop_first())
    } else {
        s
    }
}

/// The input without its trailing whitespace.
pub open spec fn trim_end_bytes(s: Seq<u8>) -> Seq<u8>
    decreases s.len(),
{
    if s.len() > 0 && is_ws(s.last()) {
        trim_end_bytes(s.drop_last())
    } else {
        s
    }
}

proof fn lemma_trim_start_skip(s: Seq<u8>, i: int)
    requires
        0 <= i <= s.len(),
        forall|k: int| 0 <= k < i ==> is_ws(s[k]),
        i < s.len() ==> !is_ws(s[i]),
    ensures
        trim_start_bytes(s) == s.subrange(i, s.len() as int),
    decreases i,
{
    if i == 0 {
        assert(s.subrange(0, s.len() as int) =~= s);
    } else {
        assert(is_ws(s[0]));
        lemma_trim_start_skip(s.drop_first(), i - 1);
        assert(s.drop_first().subrange(i - 1, s.drop_first().len() as int) =~= s.subrange(
            i,
            s.len() as int,
        ));
    }
}

/// Drop leading whitespace from a slice.
fn trim_start_slice<'a>(s: &'a [u8]) -> (r: &'a [u8])
    ensures
        r@ == trim_start_bytes(s@),
        r@.len() <= s@.len(),
{
    let mut i: usize = 0;
    while i < s.len() && is_ws_ex(s[i])
        invariant
            i <= s@.len(),
            forall|k: int| 0 <= k < i ==> is_ws(s@[k]),
        decreases s@.len() - i,
    {
        i += 1;
    }
    proof {
        lemma_trim_start_skip(s@, i as int);
    }
    slice_subrange(s, i, s.len())
}

proof fn lemma_trim_end_take(s: Seq<u8>, j: int)
    requires
        0 <= j <= s.len(),
        forall|k: int| j <= k < s.len() ==> is_ws(s[k]),
        j > 0 ==> !is_ws(s[j - 1]),
    ensures
        trim_end_bytes(s) == s.subrange(0, j),
    decreases s.len() - j,
{
    if j == s.len() {
        assert(s.subrange(0, s.len() as int) =~= s);
    } else {
        assert(is_ws(s.last()));
        lemma_trim_end_take(s.drop_last(), j);
        assert(s.drop_last().subrange(0, j) =~= s.subrange(0, j));
    }
}

/// Drop trailing whitespace from a slice.
fn trim_end_slice<'a>(s: &'a [u8]) -> (r: &'a [u8])
    ensures
        r@ == trim_end_bytes(s@),
{
    let mut j: usize = s.len();
    while j > 0 && is_ws_ex(s[j - 1])
        invariant
            j <= s@.len(),
            forall|k: int| j <= k < s@.len() ==> is_ws(s@[k]),
        decreases j,
    {
        j -= 1;
    }
    proof {
        lemma_trim_end_take(s@, j as int);
    }
    slice_subrange(s, 0, j)
}

/// The offset of the closing delimiter that matches one already-seen opener,
/// counting nested pairs; `stack` openers are outstanding.
pub open spec fn spec_find_matching(s: Seq<u8>, open: u8, close: u8, stack: int) -> Option<int>
    decreases s.len(),
{
    if s.len() == 0 {
        None
    } else if s[0] == open {
        match spec_find_matching(s.drop_first(), open, close, stack + 1) {
            Some(i) => Some(i + 1),
            None => None,
        }
    } else if s[0] == close {
        if stack == 1 {
            Some(0)
        } else {
            match spec_find_matching(s.drop_first(), open, close, stack - 1) {
                Some(i) => Some(i + 1),
                None => None,
            }
        }
    } else {
        match spec_find_matching(s.drop_first(), open, close, stack) {
            Some(i) => Some(i + 1),
            None => None,
        }
    }
}

proof fn lemma_find_matching_skip(s: Seq<u8>, open: u8, close: u8, stack0: int, i: int, st: int)
    requires
        0 <= i <= s.len(),
        spec_find_matching_partial(s, open, close, stack0, i) == st,
        forall|k: int|
            0 <= k < i ==> !(s[k] == close && s[k] != open && spec_find_matching_partial(
                s,
                open,
                close,
                stack0,
                k,
            ) == 1),
    ensures
        spec_find_matching(s, open, close, stack0) == (match spec_find_matching(
            s.subrange(i, s.len() as int),
            open,
            close,
            st,
        ) {
            Some(j) => Some(j + i),
            None => None,
        }),
    decreases i,
{
    if i == 0 {
        assert(s.subrange(0, s.len() as int) =~= s);
    } else {
        lemma_find_matching_skip(s, open, close, stack0, i - 1, spec_find_matching_partial(
            s, open, close, stack0, i - 1));
        let st1 = spec_find_matching_partial(s, open, close, stack0, i - 1);
        let rest1 = s.subrange(i - 1, s.len() as int);
        let rest = s.subrange(i, s.len() as int);
        assert(rest1.len() > 0);
        assert(rest1[0] == s[i - 1]);
        assert(rest1.drop_first() =~= rest);
    }
}

/// The outstanding-opener count after reading `i` bytes.
pub open spec fn spec_find_matching_partial(
    s: Seq<u8>,
    open: u8,
    close: u8,
    stack0: int,
    i: int,
) -> int
    decreases i,
{
    if i <= 0 {
        stack0
    } else {
        let prev = spec_find_matching_partial(s, open, close, stack0, i - 1);
        if s[i - 1] == open {
            prev + 1
        } else if s[i - 1] == close {
            prev - 1
        } else {
            prev
        }
    }
}

/// Find the close matching one already-seen opener, counting nesting.
fn find_matching(input: &[u8], open: u8, close: u8) -> (r: Option<usize>)
    ensures
        match r {
            Some(i) => spec_find_matching(input@, open, close, 1) == Some(i as int) && i
                < input@.len() && input@[i as int] == close,
            None => spec_find_matching(input@, open, close, 1) is None,
        },
{
    let mut stack: u128 = 1;
    let mut i: usize = 0;
    while i < input.len()
        invariant
            i <= input@.len(),
            stack >= 1,
            stack <= 1 + i as u128,
            stack as int == spec_find_matching_partial(input@, open, close, 1, i as int),
            forall|k: int|
                0 <= k < i ==> !(input@[k] == close && input@[k] != open
                    && spec_find_matching_partial(input@, open, close, 1, k) == 1),
        decreases input@.len() - i,
    {
        let ghost st_pre = stack as int;
        let c = input[i];
        if c == open {
            stack += 1;
        } else if c == close {
            if stack == 1 {
                proof {
                    lemma_find_matching_skip(input@, open, close, 1, i as int, stack as int);
                    let rest = input@.subrange(i as int, input@.len() as int);
                    assert(rest[0] == close);
                    assert(spec_find_matching(rest, open, close, 1) == Some(0int));
                }
                return Some(i);
            }
            stack -= 1;
        }
        proof {
            assert(spec_find_matching_partial(input@, open, close, 1, i as int + 1)
                == stack as int);
            assert forall|k: int|
                0 <= k < i as int + 1 implies !(input@[k] == close && input@[k] != open
                && spec_find_matching_partial(input@, open, close, 1, k) == 1) by {
                if k == i as int {
                    assert(spec_find_matching_partial(input@, open, close, 1, k) == st_pre);
                    if input@[k] == close && input@[k] != open {
                        assert(st_pre != 1);
                    }
                }
            }
        }
        i += 1;
    }
    proof {
        lemma_find_matching_skip(input@, open, close, 1, i as int, stack as int);
        let rest = input@.subrange(i as int, input@.len() as int);
        assert(rest.len() == 0);
        assert(spec_find_matching(rest, open, close, stack as int) is None);
    }
    None
}

/// The bytes of an ASCII run read as characters.
pub open spec fn chars_of_bytes(s: Seq<u8>) -> Seq<char> {
    s.map_values(|b: u8| b as char)
}

/// Relies on `String::push`: appends exactly one character.
#[verifier::external_body]
fn push_char(s: &mut String, c: char)
    ensures
        final(s)@ == old(s)@.push(c),
{
    s.push(c);
}

/// A string holding the given bytes as characters.
fn string_of_bytes(v: &[u8]) -> (r: String)
    ensures
        r@ == chars_of_bytes(v@),
{
    let mut s = String::new();
    let mut i: usize = 0;
    while i < v.len()
        invariant
            i <= v@.len(),
            s@ == chars_of_bytes(v@.subrange(0, i as int)),
        decreases v@.len() - i,
    {
        let c = v[i] as char;
        push_char(&mut s, c);
        proof {
            assert(s@ =~= chars_of_bytes(v@.subrange(0, i as int + 1)));
        }
        i += 1;
    }
    proof {
        assert(v@.subrange(0, v@.len() as int) =~= v@);
    }
    s
}

} // verus!

verus! {

/// The character classes the token scanners collect.
#[derive(Debug, Clone, Copy, PartialEq, Eq, Structural)]
pub enum ByteClass {
    NtBody,
    Word,
    Digits,
}

pub open spec fn class_ok(cls: ByteClass, b: u8) -> bool {
    match cls {
        ByteClass::NtBody => is_alnum(b) || b == 45,
        ByteClass::Word => is_alnum(b) || b == 95,
        ByteClass::Digits => is_digit(b),
    }
}

fn class_ok_ex(cls: ByteClass, b: u8) -> (r: bool)
    ensures
        r == class_ok(cls, b),
{
    match cls {
        ByteClass::NtBody => is_alpha_ex(b) || is_digit_ex(b) || b == 45,
        ByteClass::Word => is_alpha_ex(b) || is_digit_ex(b) || b == 95,
        ByteClass::Digits => is_digit_ex(b),
    }
}

/// How many leading bytes of `s` belong to the class.
pub open spec fn take_len(cls: ByteClass, s: Seq<u8>) -> int
    decreases s.len(),
{
    if s.len() > 0 && class_ok(cls, s[0]) {
        1 + take_len(cls, s.drop_first())
    } else {
        0
    }
}

proof fn lemma_take_len_at(cls: ByteClass, s: Seq<u8>, i: int)
    requires
        0 <= i <= s.len(),
        forall|k: int| 0 <= k < i ==> class_ok(cls, #[trigger] s[k]),
        i < s.len() ==> !class_ok(cls, s[i]),
    ensures
        take_len(cls, s) == i,
    decreases i,
{
    if i == 0 {
    } else {
        lemma_take_len_at(cls, s.drop_first(), i - 1);
    }
}

/// Where a token that starts at byte 0 ends: one validated head byte plus
/// the class-matching run after it.
pub open spec fn token_end(cls: ByteClass, s: Seq<u8>) -> int {
    1 + take_len(cls, s.skip(1))
}

/// The remainder after a token: the byte that stopped the token is skipped
/// with it, matching a scan that reads one character past the token.
pub open spec fn token_rest(cls: ByteClass, s: Seq<u8>) -> Seq<u8> {
    let n = token_end(cls, s);
    if n < s.len() {
        s.skip(n + 1)
    } else {
        s.skip(n)
    }
}

/// Collect a token whose head byte the caller has already validated,
/// consuming one extra byte after it when one stopped the run.
fn scan_token<'a>(input: &'a [u8], cls: ByteClass) -> (r: (Vec<u8>, &'a [u8]))
    requires
        input@.len() >= 1,
    ensures
        r.0@ == input@.subrange(0, token_end(cls, input@)),
        r.1@ == token_rest(cls, input@),
{
    let mut j: usize = 1;
    while j < input.len() && class_ok_ex(cls, input[j])
        invariant
            1 <= j <= input@.len(),
            forall|k: int| 1 <= k < j ==> class_ok(cls, #[trigger] input@[k]),
        decreases input@.len() - j,
    {
        j += 1;
    }
    proof {
        let body = input@.skip(1);
        assert forall|k: int| 0 <= k < j - 1 implies class_ok(cls, #[trigger] body[k]) by {
            assert(body[k] == input@[k + 1]);
        }
        if j < input@.len() {
            assert(body[j - 1] == input@[j as int]);
        }
        lemma_take_len_at(cls, body, j - 1);
        assert(token_end(cls, input@) == j as int);
    }
    let token = slice_to_vec(slice_subrange(input, 0, j));
    let rest = if j < input.len() {
        slice_subrange(input, j + 1, input.len())
    } else {
        slice_subrange(input, j, input.len())
    };
    proof {
        assert(input@.subrange(j as int + 1, input@.len() as int) =~= input@.skip(j as int + 1));
        assert(input@.subrange(j as int, input@.len() as int) =~= input@.skip(j as int));
    }
    (token, rest)
}

/// The number a run of decimal digits denotes.
pub open spec fn dec_value(s: Seq<u8>) -> int
    decreases s.len(),
{
    if s.len() == 0 {
        0
    } else {
        dec_value(s.drop_last()) * 10 + (s.last() - 48)
    }
}

pub open spec fn all_digits(s: Seq<u8>) -> bool {
    forall|k: int| 0 <= k < s.len() ==> is_digit(#[trigger] s[k])
}

proof fn lemma_dec_value_nonneg(s: Seq<u8>)
    requires
        all_digits(s),
    ensures
        dec_value(s) >= 0,
    decreases s.len(),
{
    if s.len() > 0 {
        assert(all_digits(s.drop_last())) by {
            assert(forall|k: int| 0 <= k < s.len() - 1 ==> is_digit(#[trigger] s[k]));
        }
        lemma_dec_value_nonneg(s.drop_last());
    }
}

proof fn lemma_dec_value_prefix(s: Seq<u8>, i: int)
    requires
        all_digits(s),
        0 <= i <= s.len(),
    ensures
        dec_value(s) >= dec_value(s.subrange(0, i)),
    decreases s.len() - i,
{
    if i == s.len() {
        assert(s.subrange(0, s.len() as int) =~= s);
    } else {
        lemma_dec_value_prefix(s, i + 1);
        let p0 = s.subrange(0, i);
        let p1 = s.subrange(0, i + 1);
        assert(p1.drop_last() =~= p0);
        assert(all_digits(p0)) by {
            assert(forall|k: int| 0 <= k < p0.len() ==> p0[k] == s[k]);
        }
        lemma_dec_value_nonneg(p0);
    }
}

/// The value of a digit run when it fits in 32 bits; `None` exactly when it
/// does not.
fn dec_value_u32(s: &[u8]) -> (r: Option<u32>)
    requires
        all_digits(s@),
    ensures
        match r {
            Some(v) => v as int == dec_value(s@),
            None => dec_value(s@) > u32::MAX,
        },
{
    let mut acc: u64 = 0;
    let mut i: usize = 0;
    while i < s.len()
        invariant
            i <= s@.len(),
            all_digits(s@),
            acc <= u32::MAX,
            acc as int == dec_value(s@.subrange(0, i as int)),
        decreases s@.len() - i,
    {
        let d = s[i];
        proof {
            assert(is_digit(s@[i as int]));
            let p1 = s@.subrange(0, i as int + 1);
            assert(p1.drop_last() =~= s@.subrange(0, i as int));
            assert(p1.last() == s@[i as int]);
        }
        let next = acc * 10 + (d - 48) as u64;
        if next > u32::MAX as u64 {
            proof {
                lemma_dec_value_prefix(s@, i as int + 1);
            }
            return None;
        }
        acc = next;
        i += 1;
    }
    proof {
        assert(s@.subrange(0, s@.len() as int) =~= s@);
    }
    Some(acc as u32)
}

} // verus!

verus! {

/// Recognizes a nonterminal name: a letter or `-`, then letters, digits and
/// `-`; one stopping byte is consumed with the name.
#[derive(Clone, Copy)]
pub struct NonTerminalScanner;

pub open spec fn spec_scan_nonterminal(input: Seq<u8>) -> Option<(Seq<char>, Seq<u8>)> {
    if input.len() > 0 && (is_alpha(input[0]) || input[0] == 45) {
        Some(
            (
                chars_of_bytes(input.subrange(0, token_end(ByteClass::NtBody, input))),
                token_rest(ByteClass::NtBody, input),
            ),
        )
    } else {
        None
    }
}

impl Scanner for NonTerminalScanner {
    type Output = String;

    open spec fn spec_scan(&self, input: Seq<u8>) -> Option<(Seq<char>, Seq<u8>)> {
        spec_scan_nonterminal(input)
    }

    open spec fn scan_determined(&self) -> bool {
        true
    }

    fn scan<'a>(&self, input: &'a [u8]) -> (r: Result<(Self::Output, &'a [u8]), ScanError>) {
        if input.len() > 0 && (is_alpha_ex(input[0]) || input[0] == 45) {
            let (token, rest) = scan_token(input, ByteClass::NtBody);
            let name = string_of_bytes(token.as_slice());
            Ok((name, rest))
        } else {
            Err(ScanError::Generic("expected a nonterminal name".to_owned()))
        }
    }
}

/// Recognizes a loudness value: a run of decimal digits.
#[derive(Clone, Copy)]
pub struct VolumeScanner;

pub open spec fn spec_scan_volume(input: Seq<u8>) -> Option<(Volume, Seq<u8>)> {
    if input.len() > 0 && is_digit(input[0]) {
        let v = dec_value(input.subrange(0, token_end(ByteClass::Digits, input)));
        if v <= u32::MAX {
            Some((Volume(v as u32), token_rest(ByteClass::Digits, input)))
        } else {
            None
        }
    } else {
        None
    }
}

impl Scanner for VolumeScanner {
    type Output = Volume;

    open spec fn spec_scan(&self, input: Seq<u8>) -> Option<(Volume, Seq<u8>)> {
        spec_scan_volume(input)
    }

    open spec fn scan_determined(&self) -> bool {
        true
    }

    fn scan<'a>(&self, input: &'a [u8]) -> (r: Result<(Self::Output, &'a [u8]), ScanError>) {
        if input.len() > 0 && is_digit_ex(input[0]) {
            let (token, rest) = scan_token(input, ByteClass::Digits);
            proof {
                lemma_take_len_run(ByteClass::Digits, input@.skip(1));
                assert(input@.skip(1).len() == input@.len() - 1);
                assert(token@ == input@.subrange(0, token_end(ByteClass::Digits, input@)));
                assert(0 <= token_end(ByteClass::Digits, input@) <= input@.len());
                assert(token@.len() == token_end(ByteClass::Digits, input@));
                assert(token@.len() <= input@.len());
                assert forall|k: int| 0 <= k < token@.len() implies is_digit(
                    #[trigger] token@[k],
                ) by {
                    assert(token@[k] == input@[k]);
                    if k >= 1 {
                        assert(input@[k] == input@.skip(1)[k - 1]);
                        assert(class_ok(ByteClass::Digits, input@.skip(1)[k - 1]));
                    }
                }
            }
            match dec_value_u32(token.as_slice()) {
                Some(v) => Ok((Volume(v), rest)),
                None => Err(ScanError::Generic("volume does not fit".to_owned())),
            }
        } else {
            Err(ScanError::Generic("expected a volume".to_owned()))
        }
    }
}

/// The first `take_len` bytes all belong to the class.
proof fn lemma_take_len_run(cls: ByteClass, s: Seq<u8>)
    ensures
        0 <= take_len(cls, s) <= s.len(),
        forall|k: int| 0 <= k < take_len(cls, s) ==> class_ok(cls, #[trigger] s[k]),
    decreases s.len(),
{
    if s.len() > 0 && class_ok(cls, s[0]) {
        lemma_take_len_run(cls, s.drop_first());
        assert(forall|k: int| 1 <= k < take_len(cls, s) ==> s[k] == s.drop_first()[k - 1]);
    }
}

} // verus!

verus! {

pub open spec fn to_lower(b: u8) -> u8 {
    if 65 <= b <= 90 {
        (b + 32) as u8
    } else {
        b
    }
}

pub open spec fn lower_bytes(s: Seq<u8>) -> Seq<u8> {
    s.map_values(|b: u8| to_lower(b))
}

/// The instrument a lowercased name denotes; `sine` is the short form the
/// grammar admits for the sine wave.
pub open spec fn spec_instrument_of(s: Seq<u8>) -> Option<Instrument> {
    if s == "sine"@.map_values(|c: char| c as u8) || s == "sinewave"@.map_values(
        |c: char| c as u8,
    ) {
        Some(Instrument::SineWave)
    } else if s == "piano"@.map_values(|c: char| c as u8) {
        Some(Instrument::Piano)
    } else if s == "bass"@.map_values(|c: char| c as u8) {
        Some(Instrument::Bass)
    } else if s == "bongohigh"@.map_values(|c: char| c as u8) {
        Some(Instrument::BongoHigh)
    } else if s == "bongolow"@.map_values(|c: char| c as u8) {
        Some(Instrument::BongoLow)
    } else if s == "shaker1"@.map_values(|c: char| c as u8) {
        Some(Instrument::Shaker1)
    } else if s == "shaker2"@.map_values(|c: char| c as u8) {
        Some(Instrument::Shaker2)
    } else {
        None
    }
}

/// Compare a byte vector against the bytes of an ASCII string constant.
fn bytes_match(v: &[u8], name: &str) -> (r: bool)
    requires
        name.is_ascii(),
    ensures
        r == (v@ == name@.map_values(|c: char| c as u8)),
{
    proof {
        vstd::string::is_ascii_spec_bytes(name);
    }
    let nb = name.as_bytes();
    let ghost target = name@.map_values(|c: char| c as u8);
    if v.len() != nb.len() {
        proof {
            assert(target.len() == name@.len());
        }
        return false;
    }
    let mut i: usize = 0;
    while i < v.len()
        invariant
            i <= v@.len(),
            v@.len() == nb@.len(),
            nb@ == name.spec_bytes(),
            target == name@.map_values(|c: char| c as u8),
            name@.len() == name.spec_bytes().len(),
            forall|k: int| 0 <= k < name@.len() ==> name@[k] as u8 == name.spec_bytes()[k],
            forall|k: int| 0 <= k < i ==> v@[k] == target[k],
        decreases v@.len() - i,
    {
        if v[i] != nb[i] {
            proof {
                assert(target[i as int] == name@[i as int] as u8);
                assert(nb@[i as int] == name.spec_bytes()[i as int]);
            }
            return false;
        }
        i += 1;
    }
    proof {
        assert(v@ =~= target);
    }
    true
}

/// Recognizes an instrument name: a letter, then letters, digits and `_`,
/// compared case-insensitively against the instrument names.
#[derive(Clone, Copy)]
pub struct InstrumentScanner;

pub open spec fn spec_scan_instrument(input: Seq<u8>) -> Option<(Instrument, Seq<u8>)> {
    if input.len() > 0 && is_alpha(input[0]) {
        match spec_instrument_of(
            lower_bytes(input.subrange(0, token_end(ByteClass::Word, input))),
        ) {
            Some(i) => Some((i, token_rest(ByteClass::Word, input))),
            None => None,
        }
    } else {
        None
    }
}

impl Scanner for InstrumentScanner {
    type Output = Instrument;

    open spec fn spec_scan(&self, input: Seq<u8>) -> Option<(Instrument, Seq<u8>)> {
        spec_scan_instrument(input)
    }

    open spec fn scan_determined(&self) -> bool {
        true
    }

    fn scan<'a>(&self, input: &'a [u8]) -> (r: Result<(Self::Output, &'a [u8]), ScanError>) {
        if input.len() > 0 && is_alpha_ex(input[0]) {
            let (token, rest) = scan_token(input, ByteClass::Word);
            let mut low: Vec<u8> = Vec::new();
            let mut i: usize = 0;
            while i < token.len()
                invariant
                    i <= token@.len(),
                    low@ =~= lower_bytes(token@.subrange(0, i as int)),
                decreases token@.len() - i,
            {
                let b = token[i];
                let lb = if 65 <= b && b <= 90 {
                    b + 32
                } else {
                    b
                };
                low.push(lb);
                proof {
                    assert(low@ =~= lower_bytes(token@.subrange(0, i as int + 1)));
                }
                i += 1;
            }
            proof {
                assert(token@.subrange(0, token@.len() as int) =~= token@);
                reveal_strlit("sine");
                reveal_strlit("sinewave");
                reveal_strlit("piano");
                reveal_strlit("bass");
                reveal_strlit("bongohigh");
                reveal_strlit("bongolow");
                reveal_strlit("shaker1");
                reveal_strlit("shaker2");
                assert("sine".is_ascii() && "sinewave".is_ascii() && "piano".is_ascii()
                    && "bass".is_ascii() && "bongohigh".is_ascii() && "bongolow".is_ascii()
                    && "shaker1".is_ascii() && "shaker2".is_ascii());
            }
            let r = if bytes_match(low.as_slice(), "sine") || bytes_match(
                low.as_slice(),
                "sinewave",
            ) {
                Some(Instrument::SineWave)
            } else if bytes_match(low.as_slice(), "piano") {
                Some(Instrument::Piano)
            } else if bytes_match(low.as_slice(), "bass") {
                Some(Instrument::Bass)
            } else if bytes_match(low.as_slice(), "bongohigh") {
                Some(Instrument::BongoHigh)
            } else if bytes_match(low.as_slice(), "bongolow") {
                Some(Instrument::BongoLow)
            } else if bytes_match(low.as_slice(), "shaker1") {
                Some(Instrument::Shaker1)
            } else if bytes_match(low.as_slice(), "shaker2") {
                Some(Instrument::Shaker2)
            } else {
                None
            };
            match r {
                Some(inst) => Ok((inst, rest)),
                None => Err(ScanError::Generic("unknown instrument".to_owned())),
            }
        } else {
            Err(ScanError::Generic("expected an instrument".to_owned()))
        }
    }
}

} // verus!

verus! {

/// Recognizes a control action: `i=` then an instrument, or `v=` then a
/// volume.
#[derive(Clone, Copy)]
pub struct MetaControlScanner;

pub open spec fn spec_scan_meta(input: Seq<u8>) -> Option<(MetaControl, Seq<u8>)> {
    if input.len() < 2 || input[1] != 61 {
        None
    } else if input[0] == 105 {
        match spec_scan_instrument(input.skip(2)) {
            Some((inst, rest)) => Some((MetaControl::ChangeInstrument(inst), rest)),
            None => None,
        }
    } else if input[0] == 118 {
        match spec_scan_volume(input.skip(2)) {
            Some((v, rest)) => Some((MetaControl::ChangeVolume(v), rest)),
            None => None,
        }
    } else {
        None
    }
}

impl Scanner for MetaControlScanner {
    type Output = MetaControl;

    open spec fn spec_scan(&self, input: Seq<u8>) -> Option<(MetaControl, Seq<u8>)> {
        spec_scan_meta(input)
    }

    open spec fn scan_determined(&self) -> bool {
        true
    }

    fn scan<'a>(&self, input: &'a [u8]) -> (r: Result<(Self::Output, &'a [u8]), ScanError>) {
        if input.len() < 2 || input[1] != 61 {
            return Err(ScanError::Generic("expected i= or v=".to_owned()));
        }
        let rest = slice_subrange(input, 2, input.len());
        proof {
            assert(rest@ =~= input@.skip(2));
        }
        if input[0] == 105 {
            match InstrumentScanner.scan(rest) {
                Ok((inst, rem)) => Ok((MetaControl::ChangeInstrument(inst), rem)),
                Err(e) => Err(e),
            }
        } else if input[0] == 118 {
            match VolumeScanner.scan(rest) {
                Ok((v, rem)) => Ok((MetaControl::ChangeVolume(v), rem)),
                Err(e) => Err(e),
            }
        } else {
            Err(ScanError::Generic("expected i= or v=".to_owned()))
        }
    }
}

/// The note-letter table: a fixed, non-chromatic mapping from letter to
/// offset within the octave.
pub open spec fn note_base(lower_letter: u8) -> int {
    if lower_letter == 97 {
        0int
    } else if lower_letter == 98 {
        2int
    } else if lower_letter == 99 {
        3int
    } else if lower_letter == 100 {
        5int
    } else if lower_letter == 101 {
        7int
    } else if lower_letter == 102 {
        8int
    } else {
        10int
    }
}

/// Recognizes a note or rest: `_`, or an optional octave digit, a letter
/// `a` through `g` in either case, and an optional `#` or `b` accidental.
#[derive(Clone, Copy)]
pub struct NoteScanner;

pub open spec fn spec_scan_note(input: Seq<u8>) -> Option<(TerminalNote, Seq<u8>)> {
    if input.len() == 0 {
        None
    } else if input[0] == 95 {
        Some((TerminalNote::Rest, input.skip(1)))
    } else {
        let has_digit = is_digit(input[0]);
        let octave: int = if has_digit {
            input[0] - 48
        } else {
            4
        };
        let li: int = if has_digit {
            1
        } else {
            0
        };
        if li >= input.len() {
            None
        } else {
            let lb = to_lower(input[li]);
            if !(97 <= lb <= 103) {
                None
            } else {
                let ai = li + 1;
                let acc: int = if ai < input.len() {
                    if input[ai] == 35 {
                        1
                    } else if input[ai] == 98 {
                        -1
                    } else {
                        0
                    }
                } else {
                    0
                };
                let consumed = li + 1 + (if acc != 0 {
                    1int
                } else {
                    0int
                });
                let note = note_base(lb) + acc;
                if note < 0 {
                    None
                } else {
                    Some(
                        (
                            TerminalNote::Note {
                                pitch: Pitch(octave as i8, note as u8),
                            },
                            input.skip(consumed),
                        ),
                    )
                }
            }
        }
    }
}

impl Scanner for NoteScanner {
    type Output = TerminalNote;

    open spec fn spec_scan(&self, input: Seq<u8>) -> Option<(TerminalNote, Seq<u8>)> {
        spec_scan_note(input)
    }

    open spec fn scan_determined(&self) -> bool {
        true
    }

    fn scan<'a>(&self, input: &'a [u8]) -> (r: Result<(Self::Output, &'a [u8]), ScanError>) {
        if input.len() == 0 {
            return Err(ScanError::Generic("expected a note".to_owned()));
        }
        if input[0] == 95 {
            let rest = slice_subrange(input, 1, input.len());
            proof {
                assert(rest@ =~= input@.skip(1));
            }
            return Ok((TerminalNote::Rest, rest));
        }
        let has_digit = is_digit_ex(input[0]);
        let octave: i8 = if has_digit {
            (input[0] - 48) as i8
        } else {
            4
        };
        let li: usize = if has_digit {
            1
        } else {
            0
        };
        if li >= input.len() {
            return Err(ScanError::Generic("expected a note letter".to_owned()));
        }
        let b = input[li];
        let lb = if 65 <= b && b <= 90 {
            b + 32
        } else {
            b
        };
        if !(97 <= lb && lb <= 103) {
            return Err(ScanError::Generic("not a note letter".to_owned()));
        }
        let base: i8 = if lb == 97 {
            0
        } else if lb == 98 {
            2
        } else if lb == 99 {
            3
        } else if lb == 100 {
            5
        } else if lb == 101 {
            7
        } else if lb == 102 {
            8
        } else {
            10
        };
        let ai = li + 1;
        let acc: i8 = if ai < input.len() {
            if input[ai] == 35 {
                1
            } else if input[ai] == 98 {
                -1
            } else {
                0
            }
        } else {
            0
        };
        let consumed = if acc != 0 {
            li + 2
        } else {
            li + 1
        };
        let note = base + acc;
        if note < 0 {
            return Err(ScanError::Generic("flat below the note table".to_owned()));
        }
        let rest = slice_subrange(input, consumed, input.len());
        proof {
            assert(rest@ =~= input@.skip(consumed as int));
        }
        Ok((TerminalNote::Note { pitch: Pitch(octave, note as u8) }, rest))
    }
}

/// Recognizes an optional duration: `<n>` or `<n/d>` in angle brackets, one
/// beat when absent; malformed contents fall back rather than fail.
#[derive(Clone, Copy)]
pub struct DurationScanner;

/// The first position of `b` in `s`.
pub open spec fn find_byte(s: Seq<u8>, b: u8) -> Option<int>
    decreases s.len(),
{
    if s.len() == 0 {
        None
    } else if s[0] == b {
        Some(0)
    } else {
        match find_byte(s.drop_first(), b) {
            Some(i) => Some(i + 1),
            None => None,
        }
    }
}

/// What a duration text between the brackets denotes, as the value of the
/// resulting music time.
pub open spec fn spec_duration_value(inner: Seq<u8>) -> MtV {
    match find_byte(inner, 47) {
        Some(si) => {
            let num_txt = inner.subrange(0, si);
            let den_rest = inner.skip(si + 1);
            let den_txt = match find_byte(den_rest, 47) {
                Some(s2) => den_rest.subrange(0, s2),
                None => den_rest,
            };
            if num_txt.len() > 0 && all_digits(num_txt) && dec_value(num_txt) <= u32::MAX
                && den_txt.len() > 0 && all_digits(den_txt) && dec_value(den_txt) <= u32::MAX
                && dec_value(den_txt) > 0 {
                MtV {
                    m: 0,
                    b: crate::time::frac_norm(
                        FracV { n: dec_value(num_txt), d: dec_value(den_txt) },
                    ),
                }
            } else {
                MtV { m: 0, b: FracV { n: 1, d: 1 } }
            }
        },
        None => {
            if inner.len() > 0 && all_digits(inner) && dec_value(inner) <= u32::MAX {
                MtV { m: 0, b: FracV { n: dec_value(inner), d: 1 } }
            } else {
                MtV { m: 0, b: FracV { n: 0, d: 1 } }
            }
        },
    }
}

pub open spec fn spec_scan_duration(input: Seq<u8>) -> Option<(MtV, Seq<u8>)> {
    if input.len() == 0 || input[0] != 60 {
        Some((MtV { m: 0, b: FracV { n: 1, d: 1 } }, input))
    } else {
        match spec_find_matching(input.skip(1), 60, 62, 1) {
            None => None,
            Some(e) => Some(
                (spec_duration_value(input.skip(1).subrange(0, e)), input.skip(e + 2)),
            ),
        }
    }
}

/// The index of the first `/`, if any, as a slice scan.
fn find_byte_ex(s: &[u8], b: u8) -> (r: Option<usize>)
    ensures
        match r {
            Some(i) => find_byte(s@, b) == Some(i as int) && i < s@.len() && s@[i as int] == b,
            None => find_byte(s@, b) is None,
        },
{
    let mut i: usize = 0;
    while i < s.len()
        invariant
            i <= s@.len(),
            forall|k: int| 0 <= k < i ==> s@[k] != b,
        decreases s@.len() - i,
    {
        if s[i] == b {
            proof {
                lemma_find_byte_at(s@, b, i as int);
            }
            return Some(i);
        }
        i += 1;
    }
    proof {
        lemma_find_byte_none(s@, b);
    }
    None
}

proof fn lemma_find_byte_at(s: Seq<u8>, b: u8, i: int)
    requires
        0 <= i < s.len(),
        s[i] == b,
        forall|k: int| 0 <= k < i ==> s[k] != b,
    ensures
        find_byte(s, b) == Some(i),
    decreases i,
{
    if i > 0 {
        lemma_find_byte_at(s.drop_first(), b, i - 1);
    }
}

proof fn lemma_find_byte_none(s: Seq<u8>, b: u8)
    requires
        forall|k: int| 0 <= k < s.len() ==> s[k] != b,
    ensures
        find_byte(s, b) is None,
    decreases s.len(),
{
    if s.len() > 0 {
        lemma_find_byte_none(s.drop_first(), b);
    }
}

/// Whether every byte is a digit.
fn all_digits_ex(s: &[u8]) -> (r: bool)
    ensures
        r == all_digits(s@),
{
    let mut i: usize = 0;
    while i < s.len()
        invariant
            i <= s@.len(),
            forall|k: int| 0 <= k < i ==> is_digit(#[trigger] s@[k]),
        decreases s@.len() - i,
    {
        if !is_digit_ex(s[i]) {
            return false;
        }
        i += 1;
    }
    true
}

impl Scanner for DurationScanner {
    type Output = MusicTime;

    open spec fn spec_scan(&self, input: Seq<u8>) -> Option<(MtV, Seq<u8>)> {
        spec_scan_duration(input)
    }

    open spec fn scan_determined(&self) -> bool {
        true
    }

    fn scan<'a>(&self, input: &'a [u8]) -> (r: Result<(Self::Output, &'a [u8]), ScanError>) {
        if input.len() == 0 || input[0] != 60 {
            return Ok((MusicTime::beats(1), input));
        }
        let body = slice_subrange(input, 1, input.len());
        proof {
            assert(body@ =~= input@.skip(1));
        }
        match find_matching(body, 60, 62) {
            None => Err(ScanError::Generic("expected a closing angle bracket".to_owned())),
            Some(e) => {
                let inner = slice_subrange(body, 0, e);
                let rest = slice_subrange(input, e + 2, input.len());
                proof {
                    assert(inner@ =~= input@.skip(1).subrange(0, e as int));
                    assert(rest@ =~= input@.skip(e as int + 2));
                }
                let mt = duration_of_inner(inner);
                Ok((mt, rest))
            },
        }
    }
}

/// Turn the text between duration brackets into a music time, falling back
/// to one beat (fraction) or zero beats (whole number) on malformed text.
fn duration_of_inner(inner: &[u8]) -> (r: MusicTime)
    ensures
        r@ == spec_duration_value(inner@),
{
    match find_byte_ex(inner, 47) {
        Some(si) => {
            let n = inner.len();
            proof {
                assert(si < n);
            }
            let num_txt = slice_subrange(inner, 0, si);
            let den_rest = slice_subrange(inner, si + 1, n);
            proof {
                assert(num_txt@ =~= inner@.subrange(0, si as int));
                assert(den_rest@ =~= inner@.skip(si as int + 1));
            }
            let den_txt = match find_byte_ex(den_rest, 47) {
                Some(s2) => {
                    let t = slice_subrange(den_rest, 0, s2);
                    proof {
                        assert(t@ =~= den_rest@.subrange(0, s2 as int));
                    }
                    t
                },
                None => den_rest,
            };
            let num_ok = num_txt.len() > 0 && all_digits_ex(num_txt);
            let den_ok = den_txt.len() > 0 && all_digits_ex(den_txt);
            if num_ok && den_ok {
                match (dec_value_u32(num_txt), dec_value_u32(den_txt)) {
                    (Some(n), Some(d)) => {
                        if d > 0 {
                            MusicTime(0, Beat::new(n, d))
                        } else {
                            MusicTime::beats(1)
                        }
                    },
                    _ => MusicTime::beats(1),
                }
            } else {
                MusicTime::beats(1)
            }
        },
        None => {
            if inner.len() > 0 && all_digits_ex(inner) {
                match dec_value_u32(inner) {
                    Some(n) => MusicTime::beats(n),
                    None => MusicTime::beats(0),
                }
            } else {
                MusicTime::beats(0)
            }
        },
    }
}

} // verus!

verus! {

/// The splitting of a byte run on every occurrence of `b`.
pub open spec fn spec_split_bytes(s: Seq<u8>, b: u8) -> Seq<Seq<u8>>
    decreases s.len(),
{
    match find_byte(s, b) {
        None => seq![s],
        Some(i) => {
            if 0 <= i < s.len() {
                seq![s.subrange(0, i)] + spec_split_bytes(s.skip(i + 1), b)
            } else {
                seq![s]
            }
        },
    }
}

/// What a terminal's text denotes: `:` then a control, or a note with an
/// optional duration.
pub open spec fn spec_scan_terminal(input: Seq<u8>) -> Option<(TermV, Seq<u8>)> {
    if input.len() > 0 && input[0] == 58 {
        match spec_scan_meta(input.skip(1)) {
            Some((m, rest)) => Some((TermV::Meta(m), rest)),
            None => None,
        }
    } else {
        match spec_scan_note(input) {
            None => None,
            Some((note, r1)) => match spec_scan_duration(r1) {
                None => None,
                Some((d, r2)) => Some((TermV::Music { duration: d, note }, r2)),
            },
        }
    }
}

/// What a symbol's text denotes: `:` then a terminal, else a nonterminal.
pub open spec fn spec_scan_symbol(input: Seq<u8>) -> Option<(SymV, Seq<u8>)> {
    if input.len() > 0 && input[0] == 58 {
        match spec_scan_terminal(input.skip(1)) {
            Some((t, rest)) => Some((SymV::T(t), rest)),
            None => None,
        }
    } else {
        match spec_scan_nonterminal(input) {
            Some((name, rest)) => Some((SymV::NT(name), rest)),
            None => None,
        }
    }
}

/// One primitive: a split in braces, a repeat in brackets, or a symbol,
/// dispatched on the first byte.
pub open spec fn spec_scan_primitive(input: Seq<u8>) -> Option<(PrimV, Seq<u8>)>
    decreases input.len(), 1int, 0int,
{
    if input.len() > 0 && input[0] == 123 {
        spec_scan_split(input)
    } else if input.len() > 0 && input[0] == 91 {
        spec_scan_repeat(input)
    } else {
        match spec_scan_symbol(input) {
            Some((s, rest)) => Some((PrimV::Simple(s), rest)),
            None => None,
        }
    }
}

/// Parallel branches: the matching close brace is found by nesting count,
/// the inside splits on every bar, the first branch must parse completely,
/// and later branches keep what parses.
pub open spec fn spec_scan_split(input: Seq<u8>) -> Option<(PrimV, Seq<u8>)>
    decreases input.len(), 0int, 0int,
{
    if input.len() == 0 || input[0] != 123 {
        None
    } else {
        match spec_find_matching(input.skip(1), 123, 125, 1) {
            None => None,
            Some(e) => {
                if !(0 <= e < input.len() - 1) {
                    None
                } else {
                    let inner = input.skip(1).subrange(0, e);
                    let rest = input.skip(e + 2);
                    let parts = spec_split_bytes(inner, 124);
                    match spec_scan_music_string_bounded(parts[0], input.len() as int) {
                        None => None,
                        Some((ps0, rem0)) => {
                            if rem0.len() != 0 {
                                None
                            } else {
                                match spec_scan_branches(
                                    parts.drop_first(),
                                    input.len() as int,
                                ) {
                                    None => None,
                                    Some(branches) => Some(
                                        (PrimV::Split(seq![ps0] + branches), rest),
                                    ),
                                }
                            }
                        },
                    }
                }
            },
        }
    }
}

/// The later branches of a split, each parsed leniently.
pub open spec fn spec_scan_branches(parts: Seq<Seq<u8>>, bound: int) -> Option<Seq<Seq<PrimV>>>
    decreases bound - 1, 5int, parts.len(),
{
    if parts.len() == 0 {
        Some(Seq::empty())
    } else {
        match spec_scan_music_string_bounded(parts[0], bound) {
            None => None,
            Some((ps, _rem)) => match spec_scan_branches(parts.drop_first(), bound) {
                None => None,
                Some(rest) => Some(seq![ps] + rest),
            },
        }
    }
}

/// A music string scan on a strictly smaller piece of the input, used by
/// the bracketed forms; `None` when the piece is not actually smaller.
pub open spec fn spec_scan_music_string_bounded(input: Seq<u8>, bound: int) -> Option<
    (Seq<PrimV>, Seq<u8>),
>
    decreases bound - 1, 4int, 0int,
{
    if input.len() < bound {
        spec_scan_music_string(input)
    } else {
        None
    }
}

/// A repeat: a bracketed count, then a bracketed music string that must
/// parse completely.
pub open spec fn spec_scan_repeat(input: Seq<u8>) -> Option<(PrimV, Seq<u8>)>
    decreases input.len(), 0int, 0int,
{
    if input.len() == 0 || input[0] != 91 {
        None
    } else {
        match find_byte(input, 93) {
            None => None,
            Some(end) => {
                if !(1 <= end && end + 1 < input.len() && input[end + 1] == 91) {
                    None
                } else {
                    let num_txt = input.subrange(1, end);
                    let rest0 = input.skip(end + 2);
                    if !(num_txt.len() > 0 && all_digits(num_txt) && dec_value(num_txt)
                        <= usize::MAX) {
                        None
                    } else {
                        match spec_find_matching(rest0, 91, 93, 1) {
                            None => None,
                            Some(eb) => {
                                if !(0 <= eb < rest0.len()) {
                                    None
                                } else {
                                    let content = rest0.subrange(0, eb);
                                    let rest = rest0.skip(eb + 1);
                                    match spec_scan_music_string_bounded(
                                        content,
                                        input.len() as int,
                                    ) {
                                        None => None,
                                        Some((ps, rem)) => {
                                            if rem.len() != 0 {
                                                None
                                            } else {
                                                Some(
                                                    (
                                                        PrimV::Repeat(dec_value(num_txt), ps),
                                                        rest,
                                                    ),
                                                )
                                            }
                                        },
                                    }
                                }
                            },
                        }
                    }
                }
            },
        }
    }
}

/// A music string: primitives separated by whitespace, scanned greedily
/// until one fails to parse; the unconsumed remainder is returned rather
/// than an error. `None` stands for a scan that would never return.
pub open spec fn spec_scan_music_string(input: Seq<u8>) -> Option<(Seq<PrimV>, Seq<u8>)>
    decreases input.len(), 3int, 0int,
{
    let t = trim_start_bytes(input);
    if t.len() > input.len() {
        None
    } else if t.len() == 0 {
        Some((Seq::empty(), t))
    } else {
        match spec_scan_primitive(t) {
            None => Some((Seq::empty(), t)),
            Some((p, rest)) => {
                if rest.len() < t.len() {
                    match spec_scan_music_string(rest) {
                        Some((ps, rem)) => Some((seq![p] + ps, rem)),
                        None => None,
                    }
                } else {
                    None
                }
            },
        }
    }
}

} // verus!

verus! {

/// The value of a digit run when it fits a `usize`.
fn dec_value_usize(s: &[u8]) -> (r: Option<usize>)
    requires
        all_digits(s@),
    ensures
        match r {
            Some(v) => v as int == dec_value(s@) && dec_value(s@) <= usize::MAX,
            None => dec_value(s@) > usize::MAX,
        },
{
    let mut acc: usize = 0;
    let mut i: usize = 0;
    while i < s.len()
        invariant
            i <= s@.len(),
            all_digits(s@),
            acc as int == dec_value(s@.subrange(0, i as int)),
        decreases s@.len() - i,
    {
        let d = s[i];
        proof {
            assert(is_digit(s@[i as int]));
            let p1 = s@.subrange(0, i as int + 1);
            assert(p1.drop_last() =~= s@.subrange(0, i as int));
            assert(p1.last() == s@[i as int]);
        }
        let acc128 = acc as u128 * 10 + (d - 48) as u128;
        if acc128 > usize::MAX as u128 {
            proof {
                lemma_dec_value_prefix(s@, i as int + 1);
            }
            return None;
        }
        acc = acc128 as usize;
        i += 1;
    }
    proof {
        assert(s@.subrange(0, s@.len() as int) =~= s@);
    }
    Some(acc)
}

fn scan_symbol<'a>(input: &'a [u8]) -> (r: Result<(Symbol, &'a [u8]), ScanError>)
    ensures
        match spec_scan_symbol(input@) {
            Some(pair) => r is Ok && r->Ok_0.0.deep_view() == pair.0 && r->Ok_0.1@ == pair.1,
            None => r is Err,
        },
{
    if input.len() > 0 && input[0] == 58 {
        let rest = slice_subrange(input, 1, input.len());
        proof {
            assert(rest@ =~= input@.skip(1));
        }
        match scan_terminal_inner(rest) {
            Ok((t, rem)) => Ok((Symbol::T(t), rem)),
            Err(e) => Err(e),
        }
    } else {
        match NonTerminalScanner.scan(input) {
            Ok((name, rem)) => Ok((Symbol::NT(NonTerminal::Custom(name)), rem)),
            Err(e) => Err(e),
        }
    }
}

fn scan_terminal_inner<'a>(input: &'a [u8]) -> (r: Result<(Terminal, &'a [u8]), ScanError>)
    ensures
        match spec_scan_terminal(input@) {
            Some(pair) => r is Ok && r->Ok_0.0.deep_view() == pair.0 && r->Ok_0.1@ == pair.1,
            None => r is Err,
        },
{
    if input.len() > 0 && input[0] == 58 {
        let rest = slice_subrange(input, 1, input.len());
        proof {
            assert(rest@ =~= input@.skip(1));
        }
        match MetaControlScanner.scan(rest) {
            Ok((m, rem)) => Ok((Terminal::Meta(m), rem)),
            Err(e) => Err(e),
        }
    } else {
        match NoteScanner.scan(input) {
            Err(e) => Err(e),
            Ok((note, r1)) => match DurationScanner.scan(r1) {
                Err(e) => Err(e),
                Ok((d, r2)) => Ok((Terminal::Music { duration: d, note }, r2)),
            },
        }
    }
}

/// Split a byte run on every bar, keeping empty pieces.
fn split_on_bar<'a>(cur: &'a [u8]) -> (parts: Vec<&'a [u8]>)
    ensures
        parts@.map_values(|p: &[u8]| p@) == spec_split_bytes(cur@, 124),
        parts@.len() >= 1,
        forall|k: int| 0 <= k < parts@.len() ==> (#[trigger] parts@[k])@.len() <= cur@.len(),
    decreases cur@.len(),
{
    match find_byte_ex(cur, 124) {
        None => {
            let mut v: Vec<&[u8]> = Vec::new();
            v.push(cur);
            proof {
                assert(v@.map_values(|p: &[u8]| p@) =~= seq![cur@]);
            }
            v
        },
        Some(i) => {
            let n = cur.len();
            let piece = slice_subrange(cur, 0, i);
            let tail = slice_subrange(cur, i + 1, n);
            proof {
                assert(piece@ =~= cur@.subrange(0, i as int));
                assert(tail@ =~= cur@.skip(i as int + 1));
            }
            let mut rest = split_on_bar(tail);
            let ghost restv = rest@;
            let mut v: Vec<&[u8]> = Vec::new();
            v.push(piece);
            v.append(&mut rest);
            proof {
                assert(v@ =~= seq![piece] + restv);
                assert(v@.map_values(|p: &[u8]| p@) =~= seq![piece@] + restv.map_values(
                    |p: &[u8]| p@,
                ));
            }
            v
        },
    }
}

} // verus!

verus! {

#[verifier::loop_isolation(false)]
fn scan_split<'a>(input: &'a [u8]) -> (r: Result<(MusicPrimitive, &'a [u8]), ScanError>)
    ensures
        match spec_scan_split(input@) {
            Some(pair) => r is Ok && r->Ok_0.0.deep_view() == pair.0 && r->Ok_0.1@ == pair.1,
            None => r is Err,
        },
    decreases input@.len(), 0int, 0int,
{
    if input.len() == 0 || input[0] != 123 {
        return Err(ScanError::Generic("expected an opening brace".to_owned()));
    }
    let body = slice_subrange(input, 1, input.len());
    proof {
        assert(body@ =~= input@.skip(1));
    }
    let e = match find_matching(body, 123, 125) {
        None => {
            return Err(ScanError::Generic("expected a closing brace".to_owned()));
        },
        Some(e) => e,
    };
    let inner = slice_subrange(body, 0, e);
    let rest = slice_subrange(input, e + 2, input.len());
    proof {
        assert(inner@ =~= input@.skip(1).subrange(0, e as int));
        assert(rest@ =~= input@.skip(e as int + 2));
    }
    let parts = split_on_bar(inner);
    let ghost partsv = spec_split_bytes(inner@, 124);
    let ghost bound = input@.len() as int;
    proof {
        assert(parts@[0]@.len() <= inner@.len());
        assert(inner@.len() < input@.len());
        assert(spec_scan_music_string_bounded(partsv[0], bound) == spec_scan_music_string(
            partsv[0],
        ));
        assert(parts@[0]@ == partsv[0]);
    }
    let first = match scan_music_string(parts[0]) {
        Err(e2) => {
            return Err(e2);
        },
        Ok((ms, rem0)) => {
            if rem0.len() != 0 {
                return Err(ScanError::Generic("did not consume entire input".to_owned()));
            }
            ms
        },
    };
    proof {
        assert(spec_scan_music_string_bounded(partsv[0], bound) matches Some(pp) && pp.1.len()
            == 0 && pp.0 == first.deep_view());
    }
    // The remaining branches, parsed leniently.
    let ghost tailv = partsv.drop_first();
    proof {
        assert(tailv.skip(0) =~= tailv);
        if spec_scan_branches(tailv, bound) is Some {
            assert(crate::cfg::strs_view(Seq::<MusicString>::empty())
                + spec_scan_branches(tailv, bound).unwrap() =~= spec_scan_branches(
                tailv,
                bound,
            ).unwrap());
        }
    }
    let mut others: Vec<MusicString> = Vec::new();
    let mut j: usize = 1;
    while j < parts.len()
        invariant
            1 <= j <= parts@.len(),
            parts@.map_values(|p: &[u8]| p@) == partsv,
            parts@.len() == partsv.len(),
            forall|k: int| 0 <= k < parts@.len() ==> (#[trigger] parts@[k])@.len() <= inner@.len(),
            inner@.len() < bound,
            tailv == partsv.drop_first(),
            others@.len() == j - 1,
            match spec_scan_branches(tailv.skip(j - 1), bound) {
                Some(bs) => spec_scan_branches(tailv, bound) == Some(
                    crate::cfg::strs_view(others@) + bs,
                ),
                None => spec_scan_branches(tailv, bound) is None,
            },
        decreases parts@.len() - j,
    {
        proof {
            let suf = tailv.skip(j - 1);
            assert(suf.len() == tailv.len() - (j - 1));
            assert(suf[0] == tailv[j - 1]);
            assert(tailv[j - 1] == partsv[j as int]);
            assert(suf.drop_first() =~= tailv.skip(j as int));
            assert(parts@[j as int]@ == partsv[j as int]);
            assert(parts@[j as int]@.len() <= inner@.len());
            assert(inner@.len() < input@.len());
            assert(parts@[j as int]@.len() < input@.len());
            assert(spec_scan_music_string_bounded(partsv[j as int], bound)
                == spec_scan_music_string(partsv[j as int]));
        }
        let ms = match scan_music_string(parts[j]) {
            Err(e2) => {
                proof {
                    assert(spec_scan_branches(tailv.skip(j - 1), bound) is None);
                    assert(spec_scan_branches(tailv, bound) is None);
                    assert(spec_scan_split(input@) is None);
                }
                return Err(e2);
            },
            Ok((ms, _rem)) => ms,
        };
        let ghost pre_others = others@;
        others.push(ms);
        proof {
            crate::cfg::lemma_strs_view_push(pre_others, ms);
            let suf = tailv.skip(j - 1);
            match spec_scan_branches(tailv.skip(j as int), bound) {
                Some(bs2) => {
                    assert(spec_scan_branches(suf, bound) == Some(seq![ms.deep_view()] + bs2));
                    assert(crate::cfg::strs_view(pre_others) + (seq![ms.deep_view()] + bs2)
                        =~= crate::cfg::strs_view(others@) + bs2);
                },
                None => {},
            }
        }
        j += 1;
    }
    proof {
        assert(tailv.skip(parts@.len() - 1) =~= Seq::<Seq<u8>>::empty());
        assert(spec_scan_branches(Seq::<Seq<u8>>::empty(), bound) == Some(
            Seq::<Seq<PrimV>>::empty(),
        ));
        match spec_scan_branches(tailv, bound) {
            Some(bs) => {
                assert(crate::cfg::strs_view(others@) + Seq::<Seq<PrimV>>::empty()
                    =~= crate::cfg::strs_view(others@));
            },
            None => {},
        }
    }
    let mut branches: Vec<MusicString> = Vec::new();
    branches.push(first);
    let ghost othersv = others@;
    let ghost firstv = first.deep_view();
    let mut others_m = others;
    branches.append(&mut others_m);
    proof {
        assert(branches@ =~= seq![first] + othersv);
        crate::cfg::lemma_strs_view_index(branches@);
        crate::cfg::lemma_strs_view_index(othersv);
        assert(crate::cfg::strs_view(branches@) =~= seq![firstv] + crate::cfg::strs_view(
            othersv,
        ));
    }
    let prim = MusicPrimitive::Split { branches };
    Ok((prim, rest))
}

fn scan_repeat<'a>(input: &'a [u8]) -> (r: Result<(MusicPrimitive, &'a [u8]), ScanError>)
    ensures
        match spec_scan_repeat(input@) {
            Some(pair) => r is Ok && r->Ok_0.0.deep_view() == pair.0 && r->Ok_0.1@ == pair.1,
            None => r is Err,
        },
    decreases input@.len(), 0int, 0int,
{
    if input.len() == 0 || input[0] != 91 {
        return Err(ScanError::Generic("expected an opening bracket".to_owned()));
    }
    let end = match find_byte_ex(input, 93) {
        None => {
            return Err(ScanError::Generic("expected a closing bracket".to_owned()));
        },
        Some(end) => end,
    };
    proof {
        assert(input@[0] == 91);
        assert(end >= 1);
    }
    if !(end + 1 < input.len()) {
        return Err(ScanError::Generic("expected a second bracket".to_owned()));
    }
    if input[end + 1] != 91 {
        return Err(ScanError::Generic("expected a second bracket".to_owned()));
    }
    let num_txt = slice_subrange(input, 1, end);
    proof {
        assert(num_txt@ =~= input@.subrange(1, end as int));
    }
    if num_txt.len() == 0 || !all_digits_ex(num_txt) {
        return Err(ScanError::Generic("expected a repeat count".to_owned()));
    }
    let num = match dec_value_usize(num_txt) {
        None => {
            return Err(ScanError::Generic("repeat count does not fit".to_owned()));
        },
        Some(n) => n,
    };
    let rest0 = slice_subrange(input, end + 2, input.len());
    proof {
        assert(rest0@ =~= input@.skip(end as int + 2));
    }
    let eb = match find_matching(rest0, 91, 93) {
        None => {
            return Err(ScanError::Generic("expected a closing bracket".to_owned()));
        },
        Some(eb) => eb,
    };
    let content = slice_subrange(rest0, 0, eb);
    let n0 = rest0.len();
    let rest = slice_subrange(rest0, eb + 1, n0);
    proof {
        assert(content@ =~= rest0@.subrange(0, eb as int));
        assert(rest@ =~= rest0@.skip(eb as int + 1));
        assert(content@.len() < input@.len());
        assert(spec_scan_music_string_bounded(content@, input@.len() as int)
            == spec_scan_music_string(content@));
    }
    match scan_music_string(content) {
        Err(e2) => Err(e2),
        Ok((ms, rem)) => {
            if rem.len() != 0 {
                Err(ScanError::Generic("did not consume entire input".to_owned()))
            } else {
                Ok((MusicPrimitive::Repeat { num, content: ms }, rest))
            }
        },
    }
}

fn scan_primitive<'a>(input: &'a [u8]) -> (r: Result<(MusicPrimitive, &'a [u8]), ScanError>)
    ensures
        match spec_scan_primitive(input@) {
            Some(pair) => r is Ok && r->Ok_0.0.deep_view() == pair.0 && r->Ok_0.1@ == pair.1,
            None => r is Err,
        },
    decreases input@.len(), 1int, 0int,
{
    if input.len() > 0 && input[0] == 123 {
        scan_split(input)
    } else if input.len() > 0 && input[0] == 91 {
        scan_repeat(input)
    } else {
        match scan_symbol(input) {
            Ok((s, rem)) => Ok((MusicPrimitive::Simple(s), rem)),
            Err(e) => Err(e),
        }
    }
}

#[verifier::loop_isolation(false)]
fn scan_music_string<'a>(input: &'a [u8]) -> (r: Result<(MusicString, &'a [u8]), ScanError>)
    ensures
        match spec_scan_music_string(input@) {
            Some(pair) => r is Ok && r->Ok_0.0.deep_view() == pair.0 && r->Ok_0.1@ == pair.1,
            None => r is Err,
        },
    decreases input@.len(), 3int, 0int,
{
    let mut out: Vec<MusicPrimitive> = Vec::new();
    let mut rem: &[u8] = input;
    loop
        invariant
            rem@.len() <= input@.len(),
            spec_scan_music_string(input@) == (match spec_scan_music_string(rem@) {
                Some(pair) => Some(
                    (crate::cfg::prims_view(out@) + pair.0, pair.1),
                ),
                None => None::<(Seq<PrimV>, Seq<u8>)>,
            }),
        decreases rem@.len(),
    {
        let t = trim_start_slice(rem);
        if t.len() == 0 {
            proof {
                assert(crate::cfg::prims_view(out@) + Seq::<PrimV>::empty() =~= crate::cfg::prims_view(out@));
            }
            return Ok((MusicString(out), t));
        }
        let step = scan_primitive(t);
        match step {
            Err(_) => {
                proof {
                    assert(crate::cfg::prims_view(out@) + Seq::<PrimV>::empty()
                        =~= crate::cfg::prims_view(out@));
                }
                return Ok((MusicString(out), t));
            },
            Ok((p, r2)) => {
                if r2.len() >= t.len() {
                    // A primitive that consumed nothing would repeat forever.
                    return Err(ScanError::Generic("scanner made no progress".to_owned()));
                }
                let ghost pre_out = out@;
                out.push(p);
                proof {
                    crate::cfg::lemma_prims_view_push(pre_out, p);
                    match spec_scan_music_string(r2@) {
                        Some(pair2) => {
                            assert(crate::cfg::prims_view(pre_out) + (seq![p.deep_view()]
                                + pair2.0) =~= crate::cfg::prims_view(out@) + pair2.0);
                        },
                        None => {},
                    }
                }
                rem = r2;
            },
        }
    }
}

} // verus!

verus! {

/// Recognizes one symbol: `:` then a terminal, else a nonterminal.
#[derive(Clone, Copy)]
pub struct SymbolScanner;

impl Scanner for SymbolScanner {
    type Output = Symbol;

    open spec fn spec_scan(&self, input: Seq<u8>) -> Option<(SymV, Seq<u8>)> {
        spec_scan_symbol(input)
    }

    open spec fn scan_determined(&self) -> bool {
        true
    }

    fn scan<'a>(&self, input: &'a [u8]) -> (r: Result<(Self::Output, &'a [u8]), ScanError>) {
        scan_symbol(input)
    }
}

/// Recognizes one terminal: `:` then a control action, else a note with an
/// optional duration.
#[derive(Clone, Copy)]
pub struct TerminalScanner;

impl Scanner for TerminalScanner {
    type Output = Terminal;

    open spec fn spec_scan(&self, input: Seq<u8>) -> Option<(TermV, Seq<u8>)> {
        spec_scan_terminal(input)
    }

    open spec fn scan_determined(&self) -> bool {
        true
    }

    fn scan<'a>(&self, input: &'a [u8]) -> (r: Result<(Self::Output, &'a [u8]), ScanError>) {
        scan_terminal_inner(input)
    }
}

/// Recognizes one music primitive, dispatching on the first byte.
#[derive(Clone, Copy)]
pub struct MusicPrimitiveScanner;

impl Scanner for MusicPrimitiveScanner {
    type Output = MusicPrimitive;

    open spec fn spec_scan(&self, input: Seq<u8>) -> Option<(PrimV, Seq<u8>)> {
        spec_scan_primitive(input)
    }

    open spec fn scan_determined(&self) -> bool {
        true
    }

    fn scan<'a>(&self, input: &'a [u8]) -> (r: Result<(Self::Output, &'a [u8]), ScanError>) {
        scan_primitive(input)
    }
}

/// Recognizes parallel branches in braces, separated by bars.
#[derive(Clone, Copy)]
pub struct MusicPrimitiveSplitScanner;

impl Scanner for MusicPrimitiveSplitScanner {
    type Output = MusicPrimitive;

    open spec fn spec_scan(&self, input: Seq<u8>) -> Option<(PrimV, Seq<u8>)> {
        spec_scan_split(input)
    }

    open spec fn scan_determined(&self) -> bool {
        true
    }

    fn scan<'a>(&self, input: &'a [u8]) -> (r: Result<(Self::Output, &'a [u8]), ScanError>) {
        scan_split(input)
    }
}

/// Recognizes a bracketed repeat count and content.
#[derive(Clone, Copy)]
pub struct MusicPrimitiveRepeatScanner;

impl Scanner for MusicPrimitiveRepeatScanner {
    type Output = MusicPrimitive;

    open spec fn spec_scan(&self, input: Seq<u8>) -> Option<(PrimV, Seq<u8>)> {
        spec_scan_repeat(input)
    }

    open spec fn scan_determined(&self) -> bool {
        true
    }

    fn scan<'a>(&self, input: &'a [u8]) -> (r: Result<(Self::Output, &'a [u8]), ScanError>) {
        scan_repeat(input)
    }
}

/// Recognizes a whole music string, greedily, never failing: scanning stops
/// at the first primitive that does not parse and the rest is returned.
#[derive(Clone, Copy)]
pub struct MusicStringScanner;

impl Scanner for MusicStringScanner {
    type Output = MusicString;

    open spec fn spec_scan(&self, input: Seq<u8>) -> Option<(Seq<PrimV>, Seq<u8>)> {
        spec_scan_music_string(input)
    }

    open spec fn scan_determined(&self) -> bool {
        true
    }

    fn scan<'a>(&self, input: &'a [u8]) -> (r: Result<(Self::Output, &'a [u8]), ScanError>) {
        scan_music_string(input)
    }
}

/// Recognizes one production line: a nonterminal, `=`, and a replacement.
pub struct ProductionScanner;

pub open spec fn spec_scan_production(input: Seq<u8>) -> Option<(ProdV, Seq<u8>)> {
    match spec_scan_nonterminal(input) {
        None => None,
        Some((name, r1)) => {
            let t = trim_end_bytes(trim_start_bytes(r1));
            if t.len() == 0 || t[0] != 61 {
                None
            } else {
                match spec_scan_music_string(t.skip(1)) {
                    None => None,
                    Some((ps, rem)) => Some((ProdV { name, rhs: ps }, rem)),
                }
            }
        },
    }
}

impl Scanner for ProductionScanner {
    type Output = Production;

    open spec fn spec_scan(&self, input: Seq<u8>) -> Option<(ProdV, Seq<u8>)> {
        spec_scan_production(input)
    }

    open spec fn scan_determined(&self) -> bool {
        true
    }

    fn scan<'a>(&self, input: &'a [u8]) -> (r: Result<(Self::Output, &'a [u8]), ScanError>) {
        let (name, r1) = match NonTerminalScanner.scan(input) {
            Err(e) => {
                return Err(e);
            },
            Ok(p) => p,
        };
        let t = trim_end_slice(trim_start_slice(r1));
        if t.len() == 0 || t[0] != 61 {
            return Err(ScanError::Generic("expected an equals sign".to_owned()));
        }
        let after = slice_subrange(t, 1, t.len());
        proof {
            assert(after@ =~= trim_end_bytes(trim_start_bytes(r1@)).skip(1));
        }
        match scan_music_string(after) {
            Err(e) => Err(e),
            Ok((ms, rem)) => Ok((Production(NonTerminal::Custom(name), ms), rem)),
        }
    }
}

/// Recognizes a whole grammar: a `start` line, then one production per
/// nonempty line; anything after a production on its line is ignored.
#[derive(Clone, Copy)]
pub struct GrammarScanner;

/// The trimmed, nonempty lines of the input.
pub open spec fn spec_clean_lines(s: Seq<u8>) -> Seq<Seq<u8>>
    decreases s.len(),
{
    match find_byte(s, 10) {
        Some(i) => {
            if 0 <= i < s.len() {
                let l = trim_end_bytes(trim_start_bytes(s.subrange(0, i)));
                (if l.len() > 0 {
                    seq![l]
                } else {
                    Seq::empty()
                }) + spec_clean_lines(s.skip(i + 1))
            } else {
                Seq::empty()
            }
        },
        None => {
            let l = trim_end_bytes(trim_start_bytes(s));
            if l.len() > 0 {
                seq![l]
            } else {
                Seq::empty()
            }
        },
    }
}

/// The productions the lines denote, first failure first.
pub open spec fn spec_scan_prod_lines(lines: Seq<Seq<u8>>) -> Option<Seq<ProdV>>
    decreases lines.len(),
{
    if lines.len() == 0 {
        Some(Seq::empty())
    } else {
        match spec_scan_production(lines[0]) {
            None => None,
            Some((p, _rem)) => match spec_scan_prod_lines(lines.drop_first()) {
                None => None,
                Some(ps) => Some(seq![p] + ps),
            },
        }
    }
}

pub open spec fn spec_scan_grammar(input: Seq<u8>) -> Option<(GramV, Seq<u8>)> {
    let lines = spec_clean_lines(input);
    if lines.len() == 0 {
        None
    } else {
        let first = lines[0];
        let start_kw = "start "@.map_values(|c: char| c as u8);
        if first.len() < 6 || first.subrange(0, 6) != start_kw {
            None
        } else {
            match spec_scan_nonterminal(first.skip(6)) {
                None => None,
                Some((name, _rem)) => match spec_scan_prod_lines(lines.drop_first()) {
                    None => None,
                    Some(ps) => Some((GramV { start: name, prods: ps }, Seq::empty())),
                },
            }
        }
    }
}

/// Collect the trimmed, nonempty lines of a byte slice.
#[verifier::loop_isolation(false)]
fn clean_lines<'a>(input: &'a [u8]) -> (lines: Vec<&'a [u8]>)
    ensures
        lines@.map_values(|l: &[u8]| l@) == spec_clean_lines(input@),
    decreases input@.len(),
{
    match find_byte_ex(input, 10) {
        Some(i) => {
            let head = slice_subrange(input, 0, i);
            let n = input.len();
            let tail = slice_subrange(input, i + 1, n);
            proof {
                assert(head@ =~= input@.subrange(0, i as int));
                assert(tail@ =~= input@.skip(i as int + 1));
            }
            let l = trim_end_slice(trim_start_slice(head));
            let mut rest = clean_lines(tail);
            let ghost restv = rest@;
            if l.len() > 0 {
                let mut v: Vec<&[u8]> = Vec::new();
                v.push(l);
                v.append(&mut rest);
                proof {
                    assert(v@ =~= seq![l] + restv);
                    assert(v@.map_values(|p: &[u8]| p@) =~= seq![l@] + restv.map_values(
                        |p: &[u8]| p@,
                    ));
                }
                v
            } else {
                proof {
                    assert(Seq::<Seq<u8>>::empty() + restv.map_values(|p: &[u8]| p@)
                        =~= restv.map_values(|p: &[u8]| p@));
                }
                rest
            }
        },
        None => {
            let l = trim_end_slice(trim_start_slice(input));
            let mut v: Vec<&[u8]> = Vec::new();
            if l.len() > 0 {
                v.push(l);
                proof {
                    assert(v@.map_values(|p: &[u8]| p@) =~= seq![l@]);
                }
            } else {
                proof {
                    assert(v@.map_values(|p: &[u8]| p@) =~= Seq::<Seq<u8>>::empty());
                }
            }
            v
        },
    }
}

impl Scanner for GrammarScanner {
    type Output = Grammar;

    open spec fn spec_scan(&self, input: Seq<u8>) -> Option<(GramV, Seq<u8>)> {
        spec_scan_grammar(input)
    }

    open spec fn scan_determined(&self) -> bool {
        true
    }

    #[verifier::loop_isolation(false)]
    fn scan<'a>(&self, input: &'a [u8]) -> (r: Result<(Self::Output, &'a [u8]), ScanError>) {
        let lines = clean_lines(input);
        let ghost linesv = spec_clean_lines(input@);
        if lines.len() == 0 {
            return Err(ScanError::Generic("expected at least one line".to_owned()));
        }
        let first = lines[0];
        proof {
            assert(first@ == linesv[0]);
            reveal_strlit("start ");
            assert("start "@.len() == 6);
        }
        let ghost start_kw = "start "@.map_values(|c: char| c as u8);
        if first.len() < 6 {
            return Err(ScanError::Generic("expected start at the first line".to_owned()));
        }
        let kw = slice_subrange(first, 0, 6);
        let kw_ok = kw.len() == 6 && kw[0] == 115 && kw[1] == 116 && kw[2] == 97 && kw[3] == 114
            && kw[4] == 116 && kw[5] == 32;
        proof {
            assert(start_kw.len() == 6);
            assert(start_kw[0] == 115 && start_kw[1] == 116 && start_kw[2] == 97 && start_kw[3]
                == 114 && start_kw[4] == 116 && start_kw[5] == 32);
            if kw_ok {
                assert(kw@ =~= start_kw);
            } else {
                assert(kw@ != start_kw);
            }
        }
        if !kw_ok {
            return Err(ScanError::Generic("expected start at the first line".to_owned()));
        }
        let nt_part = slice_subrange(first, 6, first.len());
        proof {
            assert(nt_part@ =~= first@.skip(6));
        }
        let start_name = match NonTerminalScanner.scan(nt_part) {
            Err(e) => {
                return Err(e);
            },
            Ok((name, _rem)) => name,
        };
        let mut productions: Vec<Production> = Vec::new();
        let mut j: usize = 1;
        while j < lines.len()
            invariant
                1 <= j <= lines@.len(),
                productions@.len() == j - 1,
                match spec_scan_prod_lines(linesv.skip(j as int)) {
                    Some(ps) => spec_scan_prod_lines(linesv.drop_first()) == Some(
                        prods_view(productions@) + ps,
                    ),
                    None => spec_scan_prod_lines(linesv.drop_first()) is None,
                },
            decreases lines@.len() - j,
        {
            proof {
                let suf = linesv.skip(j as int);
                assert(suf[0] == linesv[j as int]);
                assert(suf.drop_first() =~= linesv.skip(j as int + 1));
                assert(lines@[j as int]@ == linesv[j as int]);
            }
            match ProductionScanner.scan(lines[j]) {
                Err(e) => {
                    return Err(e);
                },
                Ok((p, _rem)) => {
                    let ghost pre = productions@;
                    productions.push(p);
                    proof {
                        crate::cfg::lemma_prods_view_index(pre);
                        crate::cfg::lemma_prods_view_index(productions@);
                        assert(productions@.drop_last() =~= pre);
                        assert(prods_view(productions@) =~= prods_view(pre).push(prod_view(p)));
                        match spec_scan_prod_lines(linesv.skip(j as int + 1)) {
                            Some(ps2) => {
                                assert(prods_view(pre) + (seq![prod_view(p)] + ps2)
                                    =~= prods_view(productions@) + ps2);
                            },
                            None => {},
                        }
                    }
                },
            }
            j += 1;
        }
        proof {
            assert(linesv.skip(lines@.len() as int) =~= Seq::<Seq<u8>>::empty());
            match spec_scan_prod_lines(linesv.drop_first()) {
                Some(ps) => {
                    assert(prods_view(productions@) + Seq::<ProdV>::empty() =~= prods_view(
                        productions@,
                    ));
                },
                None => {},
            }
        }
        let empty_rest = slice_subrange(input, input.len(), input.len());
        proof {
            assert(empty_rest@ =~= Seq::<u8>::empty());
        }
        Ok((Grammar { start: NonTerminal::Custom(start_name), productions }, empty_rest))
    }
}

} // verus!

verus! {

/// Recognizes one fixed string and hands it back.
pub struct StringScanner(pub String);

pub open spec fn str_prefix_bytes(s: Seq<char>) -> Seq<u8> {
    vstd::utf8::encode_utf8(s)
}

impl Scanner for StringScanner {
    type Output = String;

    open spec fn spec_scan(&self, input: Seq<u8>) -> Option<(Seq<char>, Seq<u8>)> {
        let pb = str_prefix_bytes(self.0@);
        if pb.len() <= input.len() && input.subrange(0, pb.len() as int) == pb {
            Some((self.0@, input.skip(pb.len() as int)))
        } else {
            None
        }
    }

    open spec fn scan_determined(&self) -> bool {
        true
    }

    fn scan<'a>(&self, input: &'a [u8]) -> (r: Result<(Self::Output, &'a [u8]), ScanError>) {
        let pb = self.0.as_str().as_bytes();
        proof {
            assert(pb@ == str_prefix_bytes(self.0@));
        }
        if pb.len() > input.len() {
            return Err(ScanError::Generic("expected a fixed string".to_owned()));
        }
        let mut i: usize = 0;
        while i < pb.len()
            invariant
                i <= pb@.len(),
                pb@.len() <= input@.len(),
                pb@ == str_prefix_bytes(self.0@),
                forall|k: int| 0 <= k < i ==> input@[k] == pb@[k],
            decreases pb@.len() - i,
        {
            if input[i] != pb[i] {
                proof {
                    assert(input@.subrange(0, pb@.len() as int)[i as int] != pb@[i as int]);
                }
                return Err(ScanError::Generic("expected a fixed string".to_owned()));
            }
            i += 1;
        }
        proof {
            assert(input@.subrange(0, pb@.len() as int) =~= pb@);
        }
        let rest = slice_subrange(input, pb.len(), input.len());
        proof {
            assert(rest@ =~= input@.skip(pb@.len() as int));
        }
        Ok((self.0.clone(), rest))
    }
}

/// Recognizes at least one byte of whitespace.
#[derive(Clone, Copy)]
pub struct SpaceScanner;

impl Scanner for SpaceScanner {
    type Output = ();

    open spec fn spec_scan(&self, input: Seq<u8>) -> Option<((), Seq<u8>)> {
        let t = trim_start_bytes(input);
        if t.len() < input.len() {
            Some(((), t))
        } else {
            None
        }
    }

    open spec fn scan_determined(&self) -> bool {
        true
    }

    fn scan<'a>(&self, input: &'a [u8]) -> (r: Result<(Self::Output, &'a [u8]), ScanError>) {
        let t = trim_start_slice(input);
        if t.len() < input.len() {
            Ok(((), t))
        } else {
            Err(ScanError::Generic("expected whitespace".to_owned()))
        }
    }
}

/// Runs one scanner and demands that it consume the whole input.
pub struct ConsumeScanner<S>(pub S);

impl<S: Scanner> Scanner for ConsumeScanner<S> {
    type Output = S::Output;

    open spec fn spec_scan(&self, input: Seq<u8>) -> Option<
        (<S::Output as DeepView>::V, Seq<u8>),
    > {
        match self.0.spec_scan(input) {
            Some(pair) => if pair.1.len() == 0 {
                Some(pair)
            } else {
                None
            },
            None => None,
        }
    }

    open spec fn scan_determined(&self) -> bool {
        self.0.scan_determined()
    }

    fn scan<'a>(&self, input: &'a [u8]) -> (r: Result<(Self::Output, &'a [u8]), ScanError>)
        ensures
            self.0.scan_determined() ==> match self.0.spec_scan(input@) {
                Some(pair) => pair.1.len() > 0 ==> (r matches Err(e) && (e matches
                    ScanError::Generic(m) && m@ == "did not consume entire input"@)),
                None => true,
            },
    {
        match self.0.scan(input) {
            Err(e) => Err(e),
            Ok((v, rest)) => {
                if rest.len() == 0 {
                    Ok((v, rest))
                } else {
                    Err(ScanError::Generic("did not consume entire input".to_owned()))
                }
            },
        }
    }
}

pub fn consume<S: Scanner>(scan: S) -> (r: ConsumeScanner<S>)
    ensures
        r == (ConsumeScanner(scan)),
{
    ConsumeScanner(scan)
}

/// Runs two scanners in sequence, pairing their results.
pub struct ConcatScan<S, T>(pub S, pub T);

impl<S: Scanner, T: Scanner> Scanner for ConcatScan<S, T> {
    type Output = (S::Output, T::Output);

    open spec fn spec_scan(&self, input: Seq<u8>) -> Option<
        ((<S::Output as DeepView>::V, <T::Output as DeepView>::V), Seq<u8>),
    > {
        match self.0.spec_scan(input) {
            None => None,
            Some((a, r1)) => match self.1.spec_scan(r1) {
                None => None,
                Some((b, r2)) => Some(((a, b), r2)),
            },
        }
    }

    open spec fn scan_determined(&self) -> bool {
        self.0.scan_determined() && self.1.scan_determined()
    }

    fn scan<'a>(&self, input: &'a [u8]) -> (r: Result<(Self::Output, &'a [u8]), ScanError>) {
        match self.0.scan(input) {
            Err(e) => Err(e),
            Ok((a, r1)) => match self.1.scan(r1) {
                Err(e) => Err(e),
                Ok((b, r2)) => Ok(((a, b), r2)),
            },
        }
    }
}

pub fn concat<S: Scanner, T: Scanner>(scan1: S, scan2: T) -> (r: ConcatScan<S, T>)
    ensures
        r == (ConcatScan(scan1, scan2)),
{
    ConcatScan(scan1, scan2)
}

/// Prefix-directed choice: the first scanner runs when its prefix opens the
/// input; otherwise the second runs when its prefix matches or is absent.
pub struct DisjointScan<S, T> {
    pub scanner_a: (ScanPrefix, S),
    pub scanner_b: (Option<ScanPrefix>, T),
}

pub open spec fn bytes_start_with(input: Seq<u8>, p: Seq<u8>) -> bool {
    p.len() <= input.len() && input.subrange(0, p.len() as int) == p
}

impl<S: Scanner, T: Scanner<Output = S::Output>> Scanner for DisjointScan<S, T> {
    type Output = S::Output;

    open spec fn spec_scan(&self, input: Seq<u8>) -> Option<
        (<S::Output as DeepView>::V, Seq<u8>),
    > {
        if bytes_start_with(input, str_prefix_bytes(self.scanner_a.0@)) {
            self.scanner_a.1.spec_scan(input)
        } else {
            match self.scanner_b.0 {
                Some(pb) => if bytes_start_with(input, str_prefix_bytes(pb@)) {
                    self.scanner_b.1.spec_scan(input)
                } else {
                    None
                },
                None => self.scanner_b.1.spec_scan(input),
            }
        }
    }

    open spec fn scan_determined(&self) -> bool {
        self.scanner_a.1.scan_determined() && self.scanner_b.1.scan_determined()
    }

    fn scan<'a>(&self, input: &'a [u8]) -> (r: Result<(Self::Output, &'a [u8]), ScanError>)
        ensures
            (!bytes_start_with(input@, str_prefix_bytes(self.scanner_a.0@))
                && (self.scanner_b.0 matches Some(pb) && !bytes_start_with(
                input@,
                str_prefix_bytes(pb@),
            ))) ==> (r matches Err(e) && (e matches ScanError::ExpectedEither(la, lb) && la@
                == self.scanner_a.0@ && lb@ == self.scanner_b.0.unwrap()@)),
    {
        if starts_with_str(input, &self.scanner_a.0) {
            self.scanner_a.1.scan(input)
        } else {
            match &self.scanner_b.0 {
                Some(pb) => {
                    if starts_with_str(input, pb) {
                        self.scanner_b.1.scan(input)
                    } else {
                        Err(
                            ScanError::ExpectedEither(
                                self.scanner_a.0.clone(),
                                pb.clone(),
                            ),
                        )
                    }
                },
                None => self.scanner_b.1.scan(input),
            }
        }
    }
}

/// Whether the input opens with the bytes of the given string.
fn starts_with_str(input: &[u8], p: &String) -> (r: bool)
    ensures
        r == bytes_start_with(input@, str_prefix_bytes(p@)),
{
    let pb = p.as_str().as_bytes();
    proof {
        assert(pb@ == str_prefix_bytes(p@));
    }
    if pb.len() > input.len() {
        return false;
    }
    let mut i: usize = 0;
    while i < pb.len()
        invariant
            i <= pb@.len(),
            pb@.len() <= input@.len(),
            pb@ == str_prefix_bytes(p@),
            forall|k: int| 0 <= k < i ==> input@[k] == pb@[k],
        decreases pb@.len() - i,
    {
        if input[i] != pb[i] {
            proof {
                assert(input@.subrange(0, pb@.len() as int)[i as int] != pb@[i as int]);
            }
            return false;
        }
        i += 1;
    }
    proof {
        assert(input@.subrange(0, pb@.len() as int) =~= pb@);
    }
    true
}

pub fn disjoint<S: Scanner, T: Scanner<Output = S::Output>>(
    prefix1: ScanPrefix,
    scan1: S,
    prefix2: Option<ScanPrefix>,
    scan2: T,
) -> (r: DisjointScan<S, T>)
    ensures
        r.scanner_a.0 == prefix1 && r.scanner_a.1 == scan1 && r.scanner_b.0 == prefix2
            && r.scanner_b.1 == scan2,
{
    DisjointScan { scanner_a: (prefix1, scan1), scanner_b: (prefix2, scan2) }
}

} // verus!

verus! {

/// Repeats a scanner until it fails, collecting the results; it never
/// fails itself. The spec is `None` for a repetition that would never
/// return because the inner scanner succeeds without consuming.
pub struct KleeneScan<S>(pub S);

pub open spec fn spec_scan_kleene<S: Scanner>(s: S, input: Seq<u8>) -> Option<
    (Seq<<S::Output as DeepView>::V>, Seq<u8>),
>
    decreases input.len(),
{
    match s.spec_scan(input) {
        None => Some((Seq::empty(), input)),
        Some((v, rest)) => {
            if rest.len() < input.len() {
                match spec_scan_kleene(s, rest) {
                    Some((vs, rem)) => Some((seq![v] + vs, rem)),
                    None => None,
                }
            } else {
                None
            }
        },
    }
}

/// Repetition never fails on a scanner that consumes at least one byte on
/// every success: the one failure `KleeneScan` reports, an inner success
/// without progress, then never happens.
pub proof fn lemma_kleene_total<S: Scanner>(s: S, input: Seq<u8>)
    requires
        forall|i: Seq<u8>|
            (#[trigger] s.spec_scan(i)) matches Some(p) ==> p.1.len() < i.len(),
    ensures
        spec_scan_kleene(s, input) is Some,
    decreases input.len(),
{
    match s.spec_scan(input) {
        None => {},
        Some((v, rest)) => {
            lemma_kleene_total(s, rest);
        },
    }
}

impl<S: Scanner + Copy> Scanner for KleeneScan<S> {
    type Output = Vec<S::Output>;

    open spec fn spec_scan(&self, input: Seq<u8>) -> Option<
        (Seq<<S::Output as DeepView>::V>, Seq<u8>),
    > {
        spec_scan_kleene(self.0, input)
    }

    open spec fn scan_determined(&self) -> bool {
        self.0.scan_determined()
    }

    #[verifier::loop_isolation(false)]
    fn scan<'a>(&self, input: &'a [u8]) -> (r: Result<(Self::Output, &'a [u8]), ScanError>) {
        let mut out: Vec<S::Output> = Vec::new();
        let mut rem: &[u8] = input;
        loop
            invariant
                rem@.len() <= input@.len(),
                self.0.scan_determined() ==> spec_scan_kleene(self.0, input@) == (
                match spec_scan_kleene(self.0, rem@) {
                    Some(pair) => Some(
                        (out.deep_view() + pair.0, pair.1),
                    ),
                    None => None::<(Seq<<S::Output as DeepView>::V>, Seq<u8>)>,
                }),
            decreases rem@.len(),
        {
            match self.0.scan(rem) {
                Err(_) => {
                    proof {
                        assert(out.deep_view() + Seq::<<S::Output as DeepView>::V>::empty()
                            =~= out.deep_view());
                    }
                    return Ok((out, rem));
                },
                Ok((v, r2)) => {
                    if r2.len() >= rem.len() {
                        return Err(ScanError::Generic("scanner made no progress".to_owned()));
                    }
                    let ghost pre = out.deep_view();
                    let ghost vv = v.deep_view();
                    out.push(v);
                    proof {
                        assert(out.deep_view() =~= pre.push(vv));
                        if self.0.scan_determined() {
                            match spec_scan_kleene(self.0, r2@) {
                                Some(pair2) => {
                                    assert(pre + (seq![vv] + pair2.0) =~= out.deep_view()
                                        + pair2.0);
                                },
                                None => {},
                            }
                        }
                    }
                    rem = r2;
                },
            }
        }
    }
}

pub fn kleene<S: Scanner + Copy>(scan: S) -> (r: KleeneScan<S>)
    ensures
        r == (KleeneScan(scan)),
{
    KleeneScan(scan)
}

/// Runs a scanner on the input with surrounding whitespace removed.
pub struct TrimScanner<S>(pub S);

impl<S: Scanner> Scanner for TrimScanner<S> {
    type Output = S::Output;

    open spec fn spec_scan(&self, input: Seq<u8>) -> Option<
        (<S::Output as DeepView>::V, Seq<u8>),
    > {
        self.0.spec_scan(trim_end_bytes(trim_start_bytes(input)))
    }

    open spec fn scan_determined(&self) -> bool {
        self.0.scan_determined()
    }

    fn scan<'a>(&self, input: &'a [u8]) -> (r: Result<(Self::Output, &'a [u8]), ScanError>) {
        self.0.scan(trim_end_slice(trim_start_slice(input)))
    }
}

/// A scanner with surrounding whitespace removed from its input.
pub fn trim<S: Scanner>(scan: S) -> (r: TrimScanner<S>)
    ensures
        r == (TrimScanner(scan)),
{
    TrimScanner(scan)
}

/// Applies a function to a scanner's result. The mapping function is
/// opaque, so this pairing promises nothing through `spec_scan`; its `scan`
/// states what it does through the function's own contract.
pub struct MapScanner<S, F> {
    pub scanner: S,
    pub mapper: F,
}

impl<S: Scanner, F: Fn(S::Output) -> T, T: DeepView> MapScanner<S, F> {
    /// Run the inner scanner, then the mapping function on its result;
    /// on success the value is the mapper applied once to the inner value,
    /// the remainder is the inner scan's, and errors pass through.
    pub fn scan<'a>(&self, input: &'a [u8]) -> (r: Result<(T, &'a [u8]), ScanError>)
        requires
            forall|v: S::Output| #[trigger] self.mapper.requires((v,)),
        ensures
            self.scanner.scan_determined() ==> match self.scanner.spec_scan(input@) {
                Some(pair) => {
                    &&& r is Ok
                    &&& r->Ok_0.1@ == pair.1
                    &&& exists|v: S::Output|
                        v.deep_view() == pair.0 && #[trigger] call_ensures(
                            self.mapper,
                            (v,),
                            r->Ok_0.0,
                        )
                },
                None => r is Err,
            },
    {
        match self.scanner.scan(input) {
            Err(e) => Err(e),
            Ok((v, rest)) => {
                let ghost gv = v;
                let out = (self.mapper)(v);
                let res: Result<(T, &'a [u8]), ScanError> = Ok((out, rest));
                proof {
                    if self.scanner.scan_determined() && self.scanner.spec_scan(
                        input@,
                    ) is Some {
                        let pair = self.scanner.spec_scan(input@).unwrap();
                        assert(gv.deep_view() == pair.0);
                        assert(call_ensures(self.mapper, (gv,), res->Ok_0.0));
                    }
                }
                res
            },
        }
    }
}

pub fn scan_map<S: Scanner, F: Fn(S::Output) -> T, T: DeepView>(scan: S, map: F) -> (r: MapScanner<
    S,
    F,
>)
    ensures
        r.scanner == scan && r.mapper == map,
{
    MapScanner { scanner: scan, mapper: map }
}

/// Applies a function to a scanner's input before running it; the function
/// is opaque, so nothing is promised through `spec_scan`.
pub struct MapInputScanner<S, F> {
    pub scanner: S,
    pub mapper: F,
}

impl<S: Scanner, F: for<'b> Fn(&'b [u8]) -> &'b [u8]> MapInputScanner<S, F> {
    /// Rewrite the input, then run the inner scanner on it; the result is
    /// the inner scan of some rewriting the mapper's contract allows.
    pub fn scan<'a>(&self, input: &'a [u8]) -> (r: Result<(S::Output, &'a [u8]), ScanError>)
        requires
            forall|v: &[u8]| #[trigger] self.mapper.requires((v,)),
        ensures
            exists|m: &[u8]|
                #[trigger] call_ensures(self.mapper, (input,), m) && (
                self.scanner.scan_determined() ==> match self.scanner.spec_scan(m@) {
                    Some(pair) => {
                        &&& r is Ok
                        &&& r->Ok_0.0.deep_view() == pair.0
                        &&& r->Ok_0.1@ == pair.1
                    },
                    None => r is Err,
                }),
    {
        let mapped = (self.mapper)(input);
        self.scanner.scan(mapped)
    }
}

pub fn scan_map_input<S: Scanner, F: for<'b> Fn(&'b [u8]) -> &'b [u8]>(scan: S, map: F) -> (r:
    MapInputScanner<S, F>)
    ensures
        r.scanner == scan && r.mapper == map,
{
    MapInputScanner { scanner: scan, mapper: map }
}

} // verus!
