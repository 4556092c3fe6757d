use rest_router::idempotency_token::{default_provider, uuid_v4, ProvideIdempotencyToken, RandomSource};
use std::sync::Mutex;

struct Counter(u128);

impl RandomSource for Counter {
    fn draw_u128(&mut self) -> u128 {
        let v = self.0;
        self.0 += 1;
        v
    }
}

fn assert_uuid_v4_shape(text: &str) {
    let chars: Vec<char> = text.chars().collect();
    assert_eq!(chars.len(), 36);
    for (i, c) in chars.iter().enumerate() {
        match i {
            8 | 13 | 18 | 23 => assert_eq!(*c, '-'),
            14 => assert_eq!(*c, '4'),
            19 => assert!(matches!(*c, '8' | '9' | 'a' | 'b')),
            _ => assert!(matches!(*c, '0'..='9' | 'a'..='f')),
        }
    }
}

#[test]
fn uuid_of_zero() {
    assert_eq!(uuid_v4(0), "00000000-0000-4000-8000-000000000000");
}

#[test]
fn uuid_of_all_ones() {
    assert_eq!(uuid_v4(u128::MAX), "ffffffff-ffff-4fff-bfff-ffffffffffff");
}

#[test]
fn uuid_consumes_nibbles_from_the_low_end() {
    assert_eq!(
        uuid_v4(0x0123456789abcdef0123456789abcdef),
        "fedcba98-7654-4321-8fed-cba987654321"
    );
    assert_eq!(
        uuid_v4(0xfedcba9876543210fedcba9876543210),
        "01234567-89ab-4cde-b012-3456789abcde"
    );
    assert_eq!(uuid_v4(1), "10000000-0000-4000-8000-000000000000");
}

#[test]
fn uuid_variant_nibble_is_forced_to_binary_10() {
    // nibble 15 lands on position 19
    assert_eq!(uuid_v4(0xf << 60), "00000000-0000-4000-b000-000000000000");
    assert_eq!(uuid_v4(0x4 << 60), "00000000-0000-4000-8000-000000000000");
    assert_eq!(uuid_v4(0x3 << 60), "00000000-0000-4000-b000-000000000000");
    assert_eq!(uuid_v4(0x1 << 60), "00000000-0000-4000-9000-000000000000");
    assert_eq!(uuid_v4(0x6 << 60), "00000000-0000-4000-a000-000000000000");
}

#[test]
fn uuid_uses_thirty_one_nibbles() {
    // nibble 30 is the last character; the top four bits are ignored
    assert_eq!(uuid_v4(0xf << 120), "00000000-0000-4000-8000-00000000000f");
    assert_eq!(uuid_v4(0xf << 124), "00000000-0000-4000-8000-000000000000");
}

#[test]
fn uuid_format_holds_for_many_inputs() {
    let mut x: u128 = 0x9e3779b97f4a7c15f39cc0605cedc834;
    for _ in 0..500 {
        assert_uuid_v4_shape(&uuid_v4(x));
        x = x.wrapping_mul(0x2545f4914f6cdd1d2545f4914f6cdd1d).wrapping_add(0x1234567);
        x ^= x >> 43;
    }
}

#[test]
fn mutex_provider_formats_each_draw() {
    let provider = Mutex::new(Counter(0));
    assert_eq!(provider.token(), "00000000-0000-4000-8000-000000000000");
    assert_eq!(provider.token(), "10000000-0000-4000-8000-000000000000");
    assert_eq!(provider.token(), "20000000-0000-4000-8000-000000000000");
}

#[test]
fn mutex_provider_skips_no_draw() {
    let provider = Mutex::new(Counter(0));
    let mut all: Vec<String> = Vec::new();
    for _ in 0..200 {
        all.push(provider.token());
    }
    all.sort();
    all.dedup();
    assert_eq!(all.len(), 200);
    assert_eq!(provider.lock().unwrap().0, 200);
}

#[test]
fn fixed_string_provider_returns_its_string() {
    let provider: &'static str = "00000000-0000-4000-8000-000000000000";
    assert_eq!(provider.token(), "00000000-0000-4000-8000-000000000000");
    assert_eq!(provider.token(), "00000000-0000-4000-8000-000000000000");
    assert_eq!("any text".token(), "any text");
}

#[test]
fn default_provider_gives_uuid_v4_text() {
    let provider = default_provider();
    let first = provider.token();
    let second = provider.token();
    assert_uuid_v4_shape(&first);
    assert_uuid_v4_shape(&second);
}
