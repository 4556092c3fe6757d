//! Idempotency tokens: version-4 UUID text drawn from a source of randomness.

use rand::rngs::ThreadRng;
use rand::Rng;
use std::ops::DerefMut;
use std::sync::Mutex;
use std::sync::MutexGuard;
use std::sync::PoisonError;
use vstd::prelude::*;

verus! {

/// `std::sync::Mutex`, carried as an opaque value.
#[verifier::external_type_specification]
#[verifier::external_body]
#[verifier::reject_recursive_types(T)]
pub struct ExMutex<T: ?Sized>(Mutex<T>);

/// `std::sync::MutexGuard`, carried as an opaque value.
#[verifier::external_type_specification]
#[verifier::external_body]
#[verifier::reject_recursive_types(T)]
pub struct ExMutexGuard<'a, T: ?Sized + 'a>(MutexGuard<'a, T>);

/// `std::sync::PoisonError`, carried as an opaque value.
#[verifier::external_type_specification]
#[verifier::external_body]
#[verifier::reject_recursive_types(T)]
pub struct ExPoisonError<T>(PoisonError<T>);

/// `rand::rngs::ThreadRng`, carried as an opaque value.
#[verifier::external_type_specification]
#[verifier::external_body]
pub struct ExThreadRng(ThreadRng);

/// `String::with_capacity` returns an empty string. It panics only when the
/// capacity exceeds `isize::MAX` bytes, which the precondition excludes.
pub assume_specification[ String::with_capacity ](capacity: usize) -> (s: String)
    requires
        capacity <= isize::MAX,
    ensures
        s@ == Seq::<char>::empty(),
;

/// `String::push` appends the given character to the end of the string.
pub assume_specification[ String::push ](s: &mut String, c: char)
    ensures
        final(s)@ == old(s)@.push(c),
;

/// Number of characters in the canonical textual form of a UUID.
pub const UUID_LEN: usize = 36;

/// The lowercase hexadecimal digits, indexed by value.
pub open spec fn hex_digits() -> Seq<char> {
    seq!['0', '1', '2', '3', '4', '5', '6', '7', '8', '9', 'a', 'b', 'c', 'd', 'e', 'f']
}

/// The `k`-th group of four bits of `input`, counted from the low end.
pub open spec fn nibble(input: u128, k: u8) -> u8 {
    ((input >> ((k * 4) as u128)) & 0x0F) as u8
}

/// Whether position `pos` of a UUID string holds a hyphen.
pub open spec fn is_hyphen_position(pos: int) -> bool {
    pos == 8 || pos == 13 || pos == 18 || pos == 23
}

/// Position of the version character.
pub open spec fn version_position() -> int {
    14
}

/// Position of the character that carries the variant bits.
pub open spec fn variant_position() -> int {
    19
}

/// How many positions before `pos` hold a fixed character (a hyphen or the
/// version digit) and therefore consume no bits of the input.
pub open spec fn fixed_before(pos: int) -> int {
    (if pos > 8 { 1int } else { 0 }) + (if pos > 13 { 1int } else { 0 }) + (if pos > 14 { 1int } else { 0 })
        + (if pos > 18 { 1int } else { 0 }) + (if pos > 23 { 1int } else { 0 })
}

/// A nibble with its two high bits forced to `10`, the RFC 4122 variant.
pub open spec fn with_variant(n: u8) -> u8 {
    (n & 0x03) | 0x08
}

/// The character at position `pos` of the UUID text for `input`.
pub open spec fn uuid_char(input: u128, pos: int) -> char {
    if is_hyphen_position(pos) {
        '-'
    } else if pos == version_position() {
        '4'
    } else {
        let n = nibble(input, (pos - fixed_before(pos)) as u8);
        if pos == variant_position() {
            hex_digits()[with_variant(n) as int]
        } else {
            hex_digits()[n as int]
        }
    }
}

/// The version-4 UUID text for a 128-bit input.
pub open spec fn uuid_text(input: u128) -> Seq<char> {
    Seq::new(UUID_LEN as nat, |pos: int| uuid_char(input, pos))
}

/// The canonical layout of a version-4 UUID: 36 characters, hyphens at
/// positions 8, 13, 18 and 23 and nowhere else, the version digit `4`, a
/// variant digit among `8`, `9`, `a`, `b`, and lowercase hexadecimal digits
/// in all other places.
pub open spec fn is_uuid_v4_text(text: Seq<char>) -> bool {
    &&& text.len() == UUID_LEN
    &&& forall|pos: int| 0 <= pos < UUID_LEN ==> (#[trigger] text[pos] == '-' <==> is_hyphen_position(pos))
    &&& forall|pos: int|
        0 <= pos < UUID_LEN && !is_hyphen_position(pos) ==> hex_digits().contains(#[trigger] text[pos])
    &&& text[version_position()] == '4'
    &&& hex_digits().subrange(8, 12).contains(text[variant_position()])
}

/// The text for any input has the canonical layout of a version-4 UUID.
pub proof fn lemma_uuid_text_is_canonical(input: u128)
    ensures
        is_uuid_v4_text(uuid_text(input)),
{
    let text = uuid_text(input);
    let digits = hex_digits();
    assert forall|pos: int| 0 <= pos < UUID_LEN implies (#[trigger] text[pos] == '-' <==> is_hyphen_position(
        pos,
    )) && (!is_hyphen_position(pos) ==> digits.contains(text[pos])) by {
        assert(forall|d: int| 0 <= d < 16 ==> digits[d] != '-');
        if pos == version_position() {
            assert(digits[4] == '4');
        } else if !is_hyphen_position(pos) {
            let k = (pos - fixed_before(pos)) as u8;
            let n = nibble(input, k);
            assert(n < 16) by (bit_vector)
                requires
                    n == ((input >> ((k * 4) as u128)) & 0x0F) as u8,
            ;
            let v = with_variant(n);
            assert(8 <= v < 12) by (bit_vector)
                requires
                    v == (n & 0x03) | 0x08,
            ;
            if pos == variant_position() {
                assert(text[pos] == digits[v as int]);
            } else {
                assert(text[pos] == digits[n as int]);
            }
        }
    }
    let n = nibble(input, 15);
    let v = with_variant(n);
    assert(8 <= v < 12) by (bit_vector)
        requires
            v == (n & 0x03) | 0x08,
    ;
    assert(text[variant_position()] == digits.subrange(8, 12)[v - 8]);
}

/// Formats a 128-bit value as version-4 UUID text: `8-4-4-4-12` lowercase
/// hexadecimal groups. Nibbles are consumed from the low end of the input;
/// the version digit is the literal `4` and the variant nibble has its high
/// bits forced to `10`. Thirty-one nibbles are used; the top four bits of the
/// input are ignored.
pub fn uuid_v4(input: u128) -> (out: String)
    ensures
        out@ == uuid_text(input),
        is_uuid_v4_text(out@),
{
    let hex: [char; 16] = ['0', '1', '2', '3', '4', '5', '6', '7', '8', '9', 'a', 'b', 'c', 'd', 'e', 'f'];
    let mut out = String::with_capacity(UUID_LEN);
    // index of the next unused nibble of `input`
    let mut rnd_idx: u8 = 0;
    let mut str_idx: usize = 0;
    while str_idx < UUID_LEN
        invariant
            str_idx <= UUID_LEN,
            rnd_idx as int == str_idx as int - fixed_before(str_idx as int),
            hex@ == hex_digits(),
            out@.len() == str_idx,
            forall|pos: int| 0 <= pos < str_idx ==> out@[pos] == uuid_char(input, pos),
        decreases UUID_LEN - str_idx,
    {
        if str_idx == 8 || str_idx == 13 || str_idx == 18 || str_idx == 23 {
            out.push('-');
        } else if str_idx == 14 {
            out.push('4');
        } else {
            let mut dat: u8 = ((input >> (rnd_idx * 4) as u128) & 0x0F) as u8;
            assert(dat < 16) by (bit_vector)
                requires
                    dat == ((input >> (rnd_idx * 4) as u128) & 0x0F) as u8,
            ;
            if str_idx == 19 {
                let ghost before = dat;
                dat = (dat & 0x03) | 0x08;
                assert(dat < 16) by (bit_vector)
                    requires
                        dat == (before & 0x03) | 0x08,
                ;
            }
            rnd_idx += 1;
            out.push(hex[dat as usize]);
        }
        str_idx += 1;
    }
    assert(out@ =~= uuid_text(input));
    proof {
        lemma_uuid_text_is_canonical(input);
    }
    out
}

/// A source of randomness: each draw yields 128 bits.
pub trait RandomSource {
    /// Draws the next value, advancing the source.
    fn draw_u128(&mut self) -> u128;
}

/// A capability that hands out idempotency tokens.
pub trait ProvideIdempotencyToken {
    /// Returns a token for one operation.
    fn token(&self) -> String;
}

/// `rand::thread_rng` hands out the calling thread's generator, which the
/// operating system seeds on first use. It has no inputs; it fails only on a
/// machine whose system source of randomness cannot be read.
#[verifier::external_body]
fn thread_rng() -> ThreadRng {
    rand::thread_rng()
}

/// `rand::Rng::gen` at `u128`: the next 128 bits of the generator. Nothing is
/// promised of the value. Like `thread_rng`, it fails only on a machine whose
/// system source of randomness cannot be read, when the generator is due for
/// new seed.
#[verifier::external_body]
fn gen_u128(rng: &mut ThreadRng) -> u128 {
    rng.gen()
}

/// `Mutex::new` wraps a value in an unlocked mutex.
#[verifier::external_body]
fn new_mutex<T>(value: T) -> Mutex<T> {
    Mutex::new(value)
}

/// `Mutex::lock` blocks until the lock is held and returns its guard, or the
/// guard inside an error if a holder of the lock panicked. It does not
/// return to a thread that holds the lock already.
#[verifier::external_body]
fn lock<'a, T>(mutex: &'a Mutex<T>) -> Result<MutexGuard<'a, T>, PoisonError<MutexGuard<'a, T>>> {
    mutex.lock()
}

/// `PoisonError::into_inner` hands out the guard that the error holds.
#[verifier::external_body]
fn into_inner<'a, T>(poisoned: PoisonError<MutexGuard<'a, T>>) -> MutexGuard<'a, T> {
    poisoned.into_inner()
}

/// `DerefMut::deref_mut` of a guard: exclusive access to the protected value.
#[verifier::external_body]
fn guarded<'a, 'b, T>(guard: &'a mut MutexGuard<'b, T>) -> &'a mut T {
    guard.deref_mut()
}

impl RandomSource for ThreadRng {
    fn draw_u128(&mut self) -> u128 {
        gen_u128(self)
    }
}

impl<T: RandomSource> ProvideIdempotencyToken for Mutex<T> {
    /// A token formatted from a fresh draw. The lock is held for the draw
    /// alone, so that concurrent callers take their draws one after another.
    /// A poisoned lock is taken over, since the source stays usable. A source
    /// must not ask its own provider for a token: that call would wait for
    /// the lock for ever.
    fn token(&self) -> (t: String)
        ensures
            exists|input: u128| t@ == uuid_text(input),
            is_uuid_v4_text(t@),
    {
        let input = {
            let mut guard = match lock(self) {
                Ok(guard) => guard,
                Err(poisoned) => into_inner(poisoned),
            };
            guarded(&mut guard).draw_u128()
        };
        uuid_v4(input)
    }
}

impl ProvideIdempotencyToken for &'static str {
    /// Always the string itself.
    fn token(&self) -> (t: String)
        ensures
            t@ == self@,
    {
        broadcast use vstd::string::to_string_from_display_ensures_for_str;

        (*self).to_string()
    }
}

/// The default provider: tokens drawn from the thread-local generator,
/// which the provider keeps behind a lock of its own.
pub fn default_provider() -> Mutex<ThreadRng> {
    new_mutex(thread_rng())
}

} // verus!
