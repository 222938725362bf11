//! Small validators and byte-level helpers shared across the backend.

use vstd::prelude::*;
use vstd::utf8::encode_utf8;

verus! {

/// Byte length of a text, as `str::len` reports it.
pub open spec fn byte_len(s: Seq<char>) -> nat {
    (encode_utf8(s).len() as usize) as nat
}

/// The bytes `word_count_bytes` splits on.
pub open spec fn is_ws_byte(c: u8) -> bool {
    c == 32 || c == 9 || c == 10
}

/// Number of whitespace bytes in `s`.
pub open spec fn ws_count(s: Seq<u8>) -> nat
    decreases s.len(),
{
    if s.len() == 0 {
        0
    } else {
        ws_count(s.drop_last()) + (if is_ws_byte(s.last()) {
            1nat
        } else {
            0nat
        })
    }
}

/// Whether a byte is the whitespace `word_count_bytes` splits on.
pub fn is_whitespace(c: &u8) -> (r: bool)
    ensures
        r == is_ws_byte(*c),
{
    *c == 32 || *c == 9 || *c == 10
}

/// Number of pieces the text splits into at whitespace bytes: one more than
/// the number of whitespace bytes (empty pieces count).
pub fn word_count_bytes(text: &[u8]) -> (r: usize)
    requires
        text@.len() < usize::MAX,
    ensures
        r == 1 + ws_count(text@),
{
    let n = text.len();
    let mut count: usize = 1;
    let mut i: usize = 0;
    while i < n
        invariant
            n == text@.len() < usize::MAX,
            i <= n,
            count == 1 + ws_count(text@.take(i as int)),
            count <= 1 + i,
        decreases n - i,
    {
        if is_whitespace(&text[i]) {
            count += 1;
        }
        proof {
            assert(text@.take(i + 1).drop_last() =~= text@.take(i as int));
            assert(text@.take(i + 1).last() == text@[i as int]);
        }
        i += 1;
    }
    proof {
        assert(text@.take(n as int) =~= text@);
    }
    count
}

/// Whether a character has a Unicode numeric general category.  Opaque:
/// only the standard library defines it.
pub uninterp spec fn numeric_char(c: char) -> bool;

/// Whether a character has the Unicode uppercase property.  Opaque: only
/// the standard library defines it.
pub uninterp spec fn uppercase_char(c: char) -> bool;

/// Whether a character is Unicode alphabetic or numeric.  Opaque: only the
/// standard library defines it.
pub uninterp spec fn alphanumeric_char(c: char) -> bool;

/// Relies on char::is_numeric: a property of the character alone.
#[verifier::external_body]
fn ch_is_numeric(c: char) -> (r: bool)
    ensures
        r == numeric_char(c),
{
    c.is_numeric()
}

/// Relies on char::is_uppercase: a property of the character alone.
#[verifier::external_body]
fn ch_is_uppercase(c: char) -> (r: bool)
    ensures
        r == uppercase_char(c),
{
    c.is_uppercase()
}

/// Relies on char::is_alphanumeric: a property of the character alone.
#[verifier::external_body]
fn ch_is_alphanumeric(c: char) -> (r: bool)
    ensures
        r == alphanumeric_char(c),
{
    c.is_alphanumeric()
}

/// A character that strengthens a password: a digit or an uppercase letter.
pub fn is_char_number_or_uppercase(c: char) -> (r: bool)
    ensures
        r == (numeric_char(c) || uppercase_char(c)),
{
    ch_is_numeric(c) || ch_is_uppercase(c)
}

/// A character not welcome in a username.
pub open spec fn unfriendly_char(c: char) -> bool {
    !alphanumeric_char(c) && c != '_' && c != '-' && c != ' '
}

/// Whether a character may not appear in a username: anything but
/// alphanumerics, underscore, dash and space.
pub fn is_char_username_unfriendly(c: char) -> (r: bool)
    ensures
        r == unfriendly_char(c),
{
    !ch_is_alphanumeric(c) && c != '_' && c != '-' && c != ' '
}

/// What `is_password_ok` accepts: 8 to 256 bytes with at least one digit or
/// uppercase letter.
pub open spec fn password_ok(s: Seq<char>) -> bool {
    &&& byte_len(s) > 7
    &&& byte_len(s) < 257
    &&& exists|i: int| 0 <= i < s.len() && (numeric_char(#[trigger] s[i]) || uppercase_char(s[i]))
}

/// Validates a password: 8 to 256 bytes, at least one digit or uppercase
/// letter.
pub fn is_password_ok(pwd: &str) -> (r: bool)
    ensures
        r == password_ok(pwd@),
{
    let len = pwd.len();
    if len <= 7 || len >= 257 {
        return false;
    }
    let n = pwd.unicode_len();
    let mut i: usize = 0;
    while i < n
        invariant
            n == pwd@.len(),
            i <= n,
            7 < byte_len(pwd@) < 257,
            forall|j: int|
                0 <= j < i ==> !(numeric_char(#[trigger] pwd@[j]) || uppercase_char(pwd@[j])),
        decreases n - i,
    {
        if is_char_number_or_uppercase(pwd.get_char(i)) {
            return true;
        }
        i += 1;
    }
    false
}

/// What `is_username_ok` accepts.
pub open spec fn username_ok(s: Seq<char>) -> bool {
    &&& 3 < byte_len(s)
    &&& byte_len(s) < 50
    &&& s.len() > 0 ==> {
        &&& s.first() != ' ' && s.last() != ' '
        &&& s.first() != '-' && s.last() != '-'
        &&& s.first() != '_' && s.last() != '_'
    }
    &&& forall|i: int|
        0 < i < s.len() ==> !((#[trigger] s[i]) == s[i - 1] && (s[i] == ' ' || s[i] == '-'
            || s[i] == '_'))
    &&& forall|i: int| 0 <= i < s.len() ==> !unfriendly_char(#[trigger] s[i])
}

/// Validates a username: 4 to 49 bytes, friendly characters only, no
/// leading, trailing or doubled space, dash or underscore.
pub fn is_username_ok(username: &str) -> (r: bool)
    ensures
        r == username_ok(username@),
{
    let len = username.len();
    if len <= 3 || len >= 50 {
        return false;
    }
    let n = username.unicode_len();
    if n == 0 {
        return false;
    }
    let first = username.get_char(0);
    if first == ' ' || first == '-' || first == '_' {
        return false;
    }
    let last = username.get_char(n - 1);
    if last == ' ' || last == '-' || last == '_' {
        return false;
    }
    let mut prev = first;
    let mut i: usize = 0;
    while i < n
        invariant
            n == username@.len(),
            i <= n,
            n > 0,
            3 < byte_len(username@) < 50,
            username@.first() != ' ' && username@.first() != '-' && username@.first() != '_',
            username@.last() != ' ' && username@.last() != '-' && username@.last() != '_',
            i > 0 ==> prev == username@[i - 1],
            forall|j: int|
                0 < j < i ==> !((#[trigger] username@[j]) == username@[j - 1] && (username@[j]
                    == ' ' || username@[j] == '-' || username@[j] == '_')),
            forall|j: int| 0 <= j < i ==> !unfriendly_char(#[trigger] username@[j]),
        decreases n - i,
    {
        let c = username.get_char(i);
        if is_char_username_unfriendly(c) {
            return false;
        }
        if i > 0 && c == prev && (c == ' ' || c == '-' || c == '_') {
            return false;
        }
        prev = c;
        i += 1;
    }
    true
}

/// Whether an email address matches the mail-address pattern this backend
/// checks registrations against.  Opaque: only the regex engine defines it.
pub uninterp spec fn email_matches(s: Seq<char>) -> bool;

/// Relies on regex::Regex::new and Regex::is_match with the fixed
/// mail-address pattern: the answer depends on the address alone.
#[verifier::external_body]
pub fn is_email_ok(email: &str) -> (r: bool)
    ensures
        r == email_matches(email@),
{
    regex::Regex::new(
        r"^([a-z0-9_+]([a-z0-9_+.]*[a-z0-9_+])?)@([a-z0-9]+([\-\.]{1}[a-z0-9]+)*\.[a-z]{2,6})",
    ).map(|re| re.is_match(email)).unwrap_or(false)
}

/// Whether a count is zero (used to skip empty vote counts when rendering).
pub fn i64_is_zero(i: &i64) -> (r: bool)
    ensures
        r == (*i == 0),
{
    *i == 0
}

/// The integer the first `n` bytes of `s` spell in big-endian order.
pub open spec fn be_int(s: Seq<u8>) -> int
    decreases s.len(),
{
    if s.len() == 0 {
        0int
    } else {
        be_int(s.drop_last()) * 256 + s.last()
    }
}

/// 256 to the `n`.
pub open spec fn pow256(n: nat) -> int
    decreases n,
{
    if n == 0 {
        1int
    } else {
        256 * pow256((n - 1) as nat)
    }
}

/// The value spelt by `n` bytes is below 256 to the `n`.
proof fn lemma_be_int_bound(s: Seq<u8>)
    ensures
        0 <= be_int(s) < pow256(s.len()),
    decreases s.len(),
{
    if s.len() > 0 {
        lemma_be_int_bound(s.drop_last());
        assert(be_int(s.drop_last()) * 256 <= (pow256((s.len() - 1) as nat) - 1) * 256)
            by (nonlinear_arith)
            requires
                be_int(s.drop_last()) <= pow256((s.len() - 1) as nat) - 1,
        ;
        assert(pow256(s.len()) == 256 * pow256((s.len() - 1) as nat));
    }
}

/// Reads a big-endian u64 from the front of `input` and advances it past
/// the eight bytes read.
pub fn read_be_u64(input: &mut &[u8]) -> (r: u64)
    requires
        old(input)@.len() >= 8,
    ensures
        r == be_int(old(input)@.subrange(0, 8)),
        final(input)@ == old(input)@.skip(8),
{
    let b: &[u8] = *input;
    let (head, rest) = b.split_at(8);
    let mut acc: u64 = 0;
    let mut i: usize = 0;
    while i < 8
        invariant
            head@.len() == 8,
            head@ =~= old(input)@.subrange(0, 8),
            i <= 8,
            acc == be_int(head@.take(i as int)),
            acc < pow256(i as nat),
        decreases 8 - i,
    {
        proof {
            lemma_be_int_bound(head@.take(i as int));
            assert(acc * 256 <= (pow256(i as nat) - 1) * 256) by (nonlinear_arith)
                requires
                    acc <= pow256(i as nat) - 1,
            ;
            assert(pow256((i + 1) as nat) == 256 * pow256(i as nat));
            assert(pow256(8nat) == 256 * pow256(7nat));
            assert(pow256(7nat) == 256 * pow256(6nat));
            assert(pow256(6nat) == 256 * pow256(5nat));
            assert(pow256(5nat) == 256 * pow256(4nat));
            assert(pow256(4nat) == 256 * pow256(3nat));
            assert(pow256(3nat) == 256 * pow256(2nat));
            assert(pow256(2nat) == 256 * pow256(1nat));
            assert(pow256(1nat) == 256 * pow256(0nat));
        }
        acc = acc * 256 + (head[i] as u64);
        proof {
            assert(head@.take(i + 1).drop_last() =~= head@.take(i as int));
            assert(head@.take(i + 1).last() == head@[i as int]);
        }
        i += 1;
    }
    proof {
        assert(head@.take(8) =~= head@);
    }
    *input = rest;
    acc
}

/// Reads a big-endian i64 (two's complement) from the front of `input` and
/// advances it past the eight bytes read.
pub fn read_be_i64(input: &mut &[u8]) -> (r: i64)
    requires
        old(input)@.len() >= 8,
    ensures
        r == (be_int(old(input)@.subrange(0, 8)) as u64) as i64,
        final(input)@ == old(input)@.skip(8),
{
    let u = read_be_u64(input);
    proof {
        lemma_be_int_bound(old(input)@.subrange(0, 8));
        assert(pow256(0nat) == 1);
        assert(pow256(1nat) == 256 * pow256(0nat));
        assert(pow256(2nat) == 256 * pow256(1nat));
        assert(pow256(3nat) == 256 * pow256(2nat));
        assert(pow256(4nat) == 256 * pow256(3nat));
        assert(pow256(5nat) == 256 * pow256(4nat));
        assert(pow256(6nat) == 256 * pow256(5nat));
        assert(pow256(7nat) == 256 * pow256(6nat));
        assert(pow256(8nat) == 256 * pow256(7nat));
    }
    u as i64
}

/// Lifting a truth value into an `Option`, as the HTTP handlers read it.
pub trait FancyBool {
    /// The truth value the receiver stands for.
    spec fn truth(&self) -> bool;

    /// `data` when true, nothing when false.
    fn qualify<T>(&self, data: T) -> (r: Option<T>)
        ensures
            r == (if self.truth() {
                Some(data)
            } else {
                None::<T>
            }),
    ;

    /// `Some(true)` when true, nothing when false.
    fn wrap(&self) -> (r: Option<bool>)
        ensures
            r == (if self.truth() {
                Some(true)
            } else {
                None::<bool>
            }),
    ;
}

impl FancyBool for bool {
    open spec fn truth(&self) -> bool {
        *self
    }

    fn qualify<T>(&self, data: T) -> (r: Option<T>) {
        if *self {
            Some(data)
        } else {
            None
        }
    }

    fn wrap(&self) -> (r: Option<bool>) {
        if *self {
            Some(true)
        } else {
            None
        }
    }
}

} // verus!
