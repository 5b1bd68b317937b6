//! Command-line argument handling and hex text for the `ppose` tool: flags
//! are taken out of the argument list by name, whatever is left must be
//! the expected positionals, and keys travel as hex.

use vstd::prelude::*;
use vstd::string::StringSliceAdditionalSpecFns;
use vstd::utf8::encode_utf8;

use crate::bytes::array32_at;
use crate::cover::CoverMode;
use crate::crypto::keys::{IdentitySecret, PublicIdentity};

verus! {

/// Argument errors, each with what the message names.
#[derive(Clone, Debug, PartialEq, Eq)]
pub enum CliError {
    /// A flag was given without its value.
    MissingValue(String),
    /// An argument nothing consumed.
    Unexpected(String),
    /// A positional argument is missing; carries the usage text.
    Usage(String),
    /// Hex text with a character that is not a hex digit.
    NotHex,
    /// Hex text of odd length (bytes).
    OddLength(usize),
    /// Hex text of the wrong decoded length (bytes).
    WrongLength(usize),
    /// An unknown cover mode.
    BadCover(String),
}

/// Calls `String::from_utf8` on ASCII bytes, which are valid UTF-8 and
/// spell one character each of the same value, as its documentation and
/// the UTF-8 encoding give.
#[verifier::external_body]
fn ascii_string(bytes: Vec<u8>) -> (s: String)
    requires
        forall|i: int| 0 <= i < bytes@.len() ==> bytes@[i] < 128,
    ensures
        s@ == bytes@.map_values(|b: u8| b as char),
{
    match String::from_utf8(bytes) {
        Ok(s) => s,
        Err(_) => String::new(),
    }
}

/// The text of each argument.
pub open spec fn texts(a: Seq<String>) -> Seq<Seq<char>> {
    a.map_values(|s: String| s@)
}

/// `p` is the first position of `f` in `a`.
pub open spec fn first_at(a: Seq<Seq<char>>, f: Seq<char>, p: int) -> bool {
    0 <= p < a.len() && a[p] == f && forall|j: int| 0 <= j < p ==> a[j] != f
}

/// Remove `flag <value>` from `args` (its first occurrence) and return the
/// value; a flag with nothing after it is refused with
/// [`CliError::MissingValue`], and the arguments are then left as they were.
pub fn take_flag(args: &mut Vec<String>, flag: &str) -> (r: Result<Option<String>, CliError>)
    ensures
        (forall|j: int| 0 <= j < old(args)@.len() ==> texts(old(args)@)[j] != flag@) ==> r == Ok::<Option<String>, CliError>(None)
            && final(args)@ == old(args)@,
        forall|p: int| #[trigger] first_at(texts(old(args)@), flag@, p) ==> {
            &&& p + 1 >= old(args)@.len() ==> (r matches Err(CliError::MissingValue(m)) && m@ == flag@) && final(args)@ == old(args)@
            &&& p + 1 < old(args)@.len() ==> (r matches Ok(Some(v)) && v@ == old(args)@[p + 1]@) && final(args)@ == old(args)@.remove(p).remove(p)
        },
{
    let f = flag.to_owned();
    let n = args.len();
    let mut i: usize = 0;
    while i < n
        invariant
            n == args@.len(),
            i <= n,
            f@ == flag@,
            *args == *old(args),
            forall|j: int| 0 <= j < i ==> texts(args@)[j] != flag@,
        decreases n - i,
    {
        if args[i] == f {
            proof {
                assert(first_at(texts(args@), flag@, i as int));
                assert forall|p: int| #[trigger] first_at(texts(args@), flag@, p) implies p == i by {
                    if p < i {
                        assert(texts(args@)[p] != flag@);
                    } else if p > i {
                        assert(texts(args@)[i as int] == flag@);
                    }
                }
            }
            if i + 1 >= n {
                return Err(CliError::MissingValue(f));
            }
            args.remove(i);
            let v = args.remove(i);
            return Ok(Some(v));
        }
        i = i + 1;
    }
    Ok(None)
}

/// The arguments left, and the values taken, when every `f <value>` pair is
/// taken out of `a` from the front; a trailing `f` with no value stays.
pub open spec fn take_all(a: Seq<Seq<char>>, f: Seq<char>) -> (Seq<Seq<char>>, Seq<Seq<char>>)
    decreases a.len(),
{
    if a.len() == 0 {
        (Seq::empty(), Seq::empty())
    } else if a[0] == f && a.len() >= 2 {
        let rest = take_all(a.skip(2), f);
        (rest.0, seq![a[1]] + rest.1)
    } else {
        let rest = take_all(a.skip(1), f);
        (seq![a[0]] + rest.0, rest.1)
    }
}

/// Remove every `flag <value>` pair from `args`, in the order encountered,
/// and return the values. A trailing `flag` with no value is left in place
/// for [`no_leftovers`].
pub fn take_all_flag(args: &mut Vec<String>, flag: &str) -> (out: Vec<String>)
    ensures
        texts(final(args)@) == take_all(texts(old(args)@), flag@).0,
        texts(out@) == take_all(texts(old(args)@), flag@).1,
{
    let f = flag.to_owned();
    let ghost a0 = texts(args@);
    let mut out: Vec<String> = Vec::new();
    let mut i: usize = 0;
    proof {
        let a = texts(args@);
        assert(a.take(0) =~= Seq::<Seq<char>>::empty());
        assert(a.skip(0) =~= a);
        assert(texts(out@) =~= Seq::<Seq<char>>::empty());
        assert(Seq::<Seq<char>>::empty() + take_all(a, flag@).0 =~= take_all(a, flag@).0);
        assert(Seq::<Seq<char>>::empty() + take_all(a, flag@).1 =~= take_all(a, flag@).1);
    }
    while i < args.len()
        invariant
            i <= args@.len(),
            f@ == flag@,
            take_all(a0, flag@).0 == texts(args@).take(i as int) + take_all(texts(args@).skip(i as int), flag@).0,
            take_all(a0, flag@).1 == texts(out@) + take_all(texts(args@).skip(i as int), flag@).1,
        decreases args@.len() - i,
    {
        let ghost a = texts(args@);
        let ghost o = texts(out@);
        if args[i] == f && i + 1 < args.len() {
            args.remove(i);
            let v = args.remove(i);
            out.push(v);
            proof {
                let s = a.skip(i as int);
                assert(s[0] == flag@ && s.len() >= 2);
                assert(s.skip(2) =~= texts(args@).skip(i as int));
                assert(texts(args@).take(i as int) =~= a.take(i as int));
                assert(texts(out@) =~= o + seq![s[1]]);
                assert(o + seq![s[1]] + take_all(s.skip(2), flag@).1 =~= o + (seq![s[1]] + take_all(s.skip(2), flag@).1));
            }
        } else {
            proof {
                let s = a.skip(i as int);
                assert(s.skip(1) =~= a.skip(i + 1));
                assert(a.take(i + 1) =~= a.take(i as int) + seq![s[0]]);
                assert(a.take(i as int) + seq![s[0]] + take_all(s.skip(1), flag@).0 =~= a.take(i as int) + (seq![s[0]]
                    + take_all(s.skip(1), flag@).0));
            }
            i = i + 1;
        }
    }
    proof {
        assert(texts(args@).take(i as int) =~= texts(args@));
        assert(texts(args@).skip(i as int) =~= Seq::<Seq<char>>::empty());
        assert(take_all(Seq::<Seq<char>>::empty(), flag@).0 =~= Seq::<Seq<char>>::empty());
        assert(texts(args@) + Seq::<Seq<char>>::empty() =~= texts(args@));
        assert(texts(out@) + Seq::<Seq<char>>::empty() =~= texts(out@));
    }
    out
}

/// Take the next positional argument (call after all flags are taken):
/// refused with [`CliError::Usage`] when there is none.
pub fn positional(args: &mut Vec<String>, usage: &str) -> (r: Result<String, CliError>)
    ensures
        old(args)@.len() == 0 ==> (r matches Err(CliError::Usage(u)) && u@ == usage@) && final(args)@ == old(args)@,
        old(args)@.len() > 0 ==> (r matches Ok(v) && v@ == old(args)@[0]@) && final(args)@ == old(args)@.remove(0),
{
    if args.len() == 0 {
        return Err(CliError::Usage(usage.to_owned()));
    }
    Ok(args.remove(0))
}

/// The next positional argument, or `default` when there is none.
pub fn positional_or(args: &mut Vec<String>, default: &str) -> (r: String)
    ensures
        old(args)@.len() == 0 ==> r@ == default@ && final(args)@ == old(args)@,
        old(args)@.len() > 0 ==> r@ == old(args)@[0]@ && final(args)@ == old(args)@.remove(0),
{
    if args.len() == 0 {
        default.to_owned()
    } else {
        args.remove(0)
    }
}

/// Reject anything not consumed: a misspelled flag would otherwise be
/// silently ignored or mistaken for an address.
pub fn no_leftovers(args: &Vec<String>) -> (r: Result<(), CliError>)
    ensures
        args@.len() == 0 <==> r is Ok,
        r matches Err(e) ==> (e matches CliError::Unexpected(x) && x@ == args@[0]@),
{
    if args.len() == 0 {
        Ok(())
    } else {
        Err(CliError::Unexpected(args[0].clone()))
    }
}

/// An ASCII hex digit, either case.
pub open spec fn is_hex_digit(b: u8) -> bool {
    (0x30 <= b <= 0x39) || (0x61 <= b <= 0x66) || (0x41 <= b <= 0x46)
}

/// The value of a hex digit.
pub open spec fn hex_value(b: u8) -> u8 {
    if b <= 0x39 {
        (b - 0x30) as u8
    } else if b >= 0x61 {
        (b - 0x61 + 10) as u8
    } else {
        (b - 0x41 + 10) as u8
    }
}

/// The bytes that hex text spells, two digits each, or why it spells none:
/// a non-digit first, then an odd length.
pub open spec fn hex_decoding(t: Seq<u8>) -> Result<Seq<u8>, CliError> {
    if exists|i: int| 0 <= i < t.len() && !is_hex_digit(#[trigger] t[i]) {
        Err(CliError::NotHex)
    } else if t.len() % 2 != 0 {
        Err(CliError::OddLength(t.len() as usize))
    } else {
        Ok(Seq::new(t.len() / 2, |i: int| (hex_value(t[2 * i]) * 16 + hex_value(t[2 * i + 1])) as u8))
    }
}

fn hex_digit_value(b: u8) -> (v: u8)
    requires
        is_hex_digit(b),
    ensures
        v == hex_value(b),
        v < 16,
{
    if b <= 0x39 {
        b - 0x30
    } else if b >= 0x61 {
        b - 0x61 + 10
    } else {
        b - 0x41 + 10
    }
}

/// Decode hex text (either case). Validates every character first, so text
/// with non-ASCII characters is an error, not a panic.
pub fn parse_hex(s: &str) -> (r: Result<Vec<u8>, CliError>)
    ensures
        match r {
            Ok(v) => hex_decoding(s.spec_bytes()) == Ok::<Seq<u8>, CliError>(v@),
            Err(e) => hex_decoding(s.spec_bytes()) == Err::<Seq<u8>, CliError>(e),
        },
{
    let t = s.as_bytes();
    let n = t.len();
    let mut i: usize = 0;
    while i < n
        invariant
            n == t@.len(),
            t@ == s.spec_bytes(),
            i <= n,
            forall|j: int| 0 <= j < i ==> is_hex_digit(#[trigger] t@[j]),
        decreases n - i,
    {
        let b = t[i];
        if !((0x30 <= b && b <= 0x39) || (0x61 <= b && b <= 0x66) || (0x41 <= b && b <= 0x46)) {
            proof {
                assert(!is_hex_digit(t@[i as int]));
            }
            return Err(CliError::NotHex);
        }
        i = i + 1;
    }
    if n % 2 != 0 {
        return Err(CliError::OddLength(n));
    }
    let ghost want = Seq::new(t@.len() / 2, |k: int| (hex_value(t@[2 * k]) * 16 + hex_value(t@[2 * k + 1])) as u8);
    let mut out: Vec<u8> = Vec::with_capacity(n / 2);
    let mut k: usize = 0;
    while k < n / 2
        invariant
            n == t@.len(),
            n % 2 == 0,
            k <= n / 2,
            forall|j: int| 0 <= j < n ==> is_hex_digit(#[trigger] t@[j]),
            want == Seq::new(t@.len() / 2, |q: int| (hex_value(t@[2 * q]) * 16 + hex_value(t@[2 * q + 1])) as u8),
            out@ == want.take(k as int),
        decreases n / 2 - k,
    {
        let hi = hex_digit_value(t[2 * k]);
        let lo = hex_digit_value(t[2 * k + 1]);
        out.push(hi * 16 + lo);
        proof {
            assert(out@ =~= want.take(k + 1));
        }
        k = k + 1;
    }
    proof {
        assert(out@ =~= want);
    }
    Ok(out)
}

/// Decode hex text of exactly 32 bytes; other lengths are refused with
/// [`CliError::WrongLength`].
pub fn parse_hex32(s: &str) -> (r: Result<[u8; 32], CliError>)
    ensures
        match hex_decoding(s.spec_bytes()) {
            Err(e) => r == Err::<[u8; 32], CliError>(e),
            Ok(b) => if b.len() == 32 {
                r matches Ok(a) && a@ == b
            } else {
                r == Err::<[u8; 32], CliError>(CliError::WrongLength(b.len() as usize))
            },
        },
{
    let v = match parse_hex(s) {
        Ok(v) => v,
        Err(e) => return Err(e),
    };
    if v.len() != 32 {
        return Err(CliError::WrongLength(v.len()));
    }
    let a = array32_at(v.as_slice(), 0);
    assert(a@ =~= v@);
    Ok(a)
}

/// The lowercase hex digit of a value below 16.
pub open spec fn hex_char(n: u8) -> u8 {
    if n < 10 {
        (0x30 + n) as u8
    } else {
        (0x61 + n - 10) as u8
    }
}

/// Lowercase hex text of `b`, two digits per byte.
pub open spec fn hex_bytes(b: Seq<u8>) -> Seq<u8>
    decreases b.len(),
{
    if b.len() == 0 {
        Seq::empty()
    } else {
        hex_bytes(b.drop_last()) + seq![hex_char(b.last() / 16), hex_char(b.last() % 16)]
    }
}

proof fn lemma_hex_bytes(b: Seq<u8>)
    ensures
        hex_bytes(b).len() == 2 * b.len(),
        forall|i: int| 0 <= i < hex_bytes(b).len() ==> #[trigger] hex_bytes(b)[i] < 128,
    decreases b.len(),
{
    if b.len() > 0 {
        lemma_hex_bytes(b.drop_last());
    }
}

proof fn lemma_hex_bytes_index(b: Seq<u8>)
    ensures
        hex_bytes(b).len() == 2 * b.len(),
        forall|i: int| 0 <= i < b.len() ==> #[trigger] hex_bytes(b)[2 * i] == hex_char(b[i] / 16) && hex_bytes(b)[2 * i + 1]
            == hex_char(b[i] % 16),
    decreases b.len(),
{
    if b.len() > 0 {
        let p = b.drop_last();
        lemma_hex_bytes_index(p);
        assert forall|i: int| 0 <= i < b.len() implies #[trigger] hex_bytes(b)[2 * i] == hex_char(b[i] / 16) && hex_bytes(b)[2
            * i + 1] == hex_char(b[i] % 16) by {
            if i < p.len() {
                assert(hex_bytes(p)[2 * i] == hex_char(p[i] / 16));
                assert(p[i] == b[i]);
            }
        }
    }
}

/// Decoding the hex text of `b` gives `b` back, and so does reading the
/// text `hex` produces as hex: the two are inverse on every byte string.
pub proof fn lemma_hex_roundtrip(b: Seq<u8>)
    ensures
        hex_decoding(hex_bytes(b)) == Ok::<Seq<u8>, CliError>(b),
        hex_decoding(encode_utf8(hex_bytes(b).map_values(|c: u8| c as char))) == Ok::<Seq<u8>, CliError>(b),
{
    let t = hex_bytes(b);
    lemma_hex_bytes_index(b);
    lemma_hex_bytes(b);
    assert forall|i: int| 0 <= i < t.len() implies is_hex_digit(#[trigger] t[i]) by {
        let k = i / 2;
        if i % 2 == 0 {
            assert(i == 2 * k);
            assert(t[2 * k] == hex_char(b[k] / 16));
        } else {
            assert(i == 2 * k + 1);
            assert(t[2 * k] == hex_char(b[k] / 16));
            assert(t[2 * k + 1] == hex_char(b[k] % 16));
        }
    }
    let d = Seq::new(t.len() / 2, |i: int| (hex_value(t[2 * i]) * 16 + hex_value(t[2 * i + 1])) as u8);
    assert forall|i: int| 0 <= i < b.len() implies #[trigger] d[i] == b[i] by {
        assert(t[2 * i] == hex_char(b[i] / 16));
        assert(t[2 * i + 1] == hex_char(b[i] % 16));
        let x = b[i];
        assert(hex_value(hex_char(x / 16)) == x / 16);
        assert(hex_value(hex_char(x % 16)) == x % 16);
    }
    assert(d =~= b);
    let chars = t.map_values(|c: u8| c as char);
    assert(vstd::utf8::is_ascii_chars(chars)) by {
        assert forall|i: int| 0 <= i < chars.len() implies '\0' <= #[trigger] chars[i] <= '\u{7f}' by {
            assert(t[i] < 128);
        }
    }
    vstd::utf8::is_ascii_chars_encode_utf8(chars);
    assert(encode_utf8(chars) =~= t) by {
        assert forall|i: int| 0 <= i < t.len() implies encode_utf8(chars)[i] == t[i] by {
            assert(chars[i] as u8 == encode_utf8(chars)[i]);
        }
    }
}

/// Lowercase hex text of `bytes`.
pub fn hex(bytes: &[u8]) -> (s: String)
    ensures
        s@ == hex_bytes(bytes@).map_values(|c: u8| c as char),
{
    let n = bytes.len();
    let mut out: Vec<u8> = Vec::new();
    let mut i: usize = 0;
    while i < n
        invariant
            n == bytes@.len(),
            i <= n,
            out@ == hex_bytes(bytes@.take(i as int)),
        decreases n - i,
    {
        let b = bytes[i];
        let hi = b / 16;
        let lo = b % 16;
        out.push(if hi < 10 { 0x30 + hi } else { 0x61 + hi - 10 });
        out.push(if lo < 10 { 0x30 + lo } else { 0x61 + lo - 10 });
        proof {
            let t = bytes@.take(i + 1);
            assert(t.drop_last() =~= bytes@.take(i as int));
            assert(out@ =~= hex_bytes(t));
        }
        i = i + 1;
    }
    proof {
        assert(bytes@.take(i as int) =~= bytes@);
        lemma_hex_bytes(bytes@);
    }
    ascii_string(out)
}

/// The cover mode a `--cover` value names: none or `off`, `balanced`,
/// `stealth`; anything else is refused.
pub open spec fn cover_choice(v: Option<Seq<char>>) -> Result<CoverMode, Seq<char>> {
    match v {
        None => Ok(CoverMode::Off),
        Some(s) => if s == "off"@ {
            Ok(CoverMode::Off)
        } else if s == "balanced"@ {
            Ok(CoverMode::Balanced)
        } else if s == "stealth"@ {
            Ok(CoverMode::Stealth)
        } else {
            Err(s)
        },
    }
}

/// Take `--cover <mode>` from `args`: off (also when absent), balanced or
/// stealth; another value is refused with [`CliError::BadCover`].
pub fn take_cover_flag(args: &mut Vec<String>) -> (r: Result<CoverMode, CliError>)
    ensures
        (forall|j: int| 0 <= j < old(args)@.len() ==> texts(old(args)@)[j] != "--cover"@) ==> r == Ok::<CoverMode, CliError>(CoverMode::Off)
            && final(args)@ == old(args)@,
        forall|p: int| #[trigger] first_at(texts(old(args)@), "--cover"@, p) ==> {
            &&& p + 1 >= old(args)@.len() ==> (r matches Err(CliError::MissingValue(m)) && m@ == "--cover"@)
            &&& p + 1 < old(args)@.len() ==> final(args)@ == old(args)@.remove(p).remove(p) && match cover_choice(Some(old(args)@[p + 1]@)) {
                Ok(m) => r == Ok::<CoverMode, CliError>(m),
                Err(x) => r matches Err(CliError::BadCover(y)) && y@ == x,
            }
        },
{
    let v = match take_flag(args, "--cover") {
        Ok(v) => v,
        Err(e) => return Err(e),
    };
    match v {
        None => Ok(CoverMode::Off),
        Some(s) => {
            let off = "off".to_owned();
            let balanced = "balanced".to_owned();
            let stealth = "stealth".to_owned();
            if s == off {
                Ok(CoverMode::Off)
            } else if s == balanced {
                Ok(CoverMode::Balanced)
            } else if s == stealth {
                Ok(CoverMode::Stealth)
            } else {
                Err(CliError::BadCover(s))
            }
        },
    }
}

/// Take `flag <hex32>` from `args` as the identity a peer must present.
pub fn take_pin_flag(args: &mut Vec<String>, flag: &str) -> (r: Result<Option<PublicIdentity>, CliError>)
    ensures
        (forall|j: int| 0 <= j < old(args)@.len() ==> texts(old(args)@)[j] != flag@) ==> r == Ok::<Option<PublicIdentity>, CliError>(None)
            && final(args)@ == old(args)@,
        forall|p: int| #[trigger] first_at(texts(old(args)@), flag@, p) && p + 1 < old(args)@.len() ==> {
            &&& final(args)@ == old(args)@.remove(p).remove(p)
            &&& match hex_decoding(encode_utf8(old(args)@[p + 1]@)) {
                Err(e) => r == Err::<Option<PublicIdentity>, CliError>(e),
                Ok(b) => if b.len() == 32 { r matches Ok(Some(k)) && k@ == b } else { r is Err },
            }
        },
{
    match take_flag(args, flag) {
        Err(e) => Err(e),
        Ok(None) => Ok(None),
        Ok(Some(v)) => match parse_hex32(v.as_str()) {
            Ok(b) => Ok(Some(PublicIdentity::from_bytes(b))),
            Err(e) => Err(e),
        },
    }
}

/// Take `flag <hex32>` from `args` as a persistent local identity secret.
pub fn take_key_flag(args: &mut Vec<String>, flag: &str) -> (r: Result<Option<IdentitySecret>, CliError>)
    ensures
        (forall|j: int| 0 <= j < old(args)@.len() ==> texts(old(args)@)[j] != flag@) ==> r is Ok && r->Ok_0 is None
            && final(args)@ == old(args)@,
        forall|p: int| #[trigger] first_at(texts(old(args)@), flag@, p) && p + 1 < old(args)@.len() ==> {
            &&& final(args)@ == old(args)@.remove(p).remove(p)
            &&& match hex_decoding(encode_utf8(old(args)@[p + 1]@)) {
                Err(e) => r matches Err(x) && x == e,
                Ok(b) => if b.len() == 32 { r matches Ok(Some(k)) && k@ == b } else { r is Err },
            }
        },
{
    match take_flag(args, flag) {
        Err(e) => Err(e),
        Ok(None) => Ok(None),
        Ok(Some(v)) => match parse_hex32(v.as_str()) {
            Ok(b) => Ok(Some(IdentitySecret::from_bytes(b))),
            Err(e) => Err(e),
        },
    }
}

/// The rendezvous epoch (hours since the Unix epoch) of a Unix time in
/// seconds.
pub fn rs_epoch_now(unix_secs: u64) -> (h: u64)
    ensures
        h == unix_secs / 3600,
{
    unix_secs / 3600
}

} // verus!
