//! Addresses written out in their various forms read back as they were.

use evade_proxy::address::{parse_ipv4, parse_ipv6};

fn next(state: &mut u64) -> u64 {
    *state = state.wrapping_mul(6364136223846793005).wrapping_add(1442695040888963407);
    *state >> 33
}

fn groups(value: u128) -> Vec<u16> {
    (0..8).map(|i| (value >> (112 - 16 * i)) as u16).collect()
}

fn colons(list: &[u16], upper: bool) -> String {
    let texts: Vec<String> = list
        .iter()
        .map(|g| if upper { format!("{g:04X}") } else { format!("{g:x}") })
        .collect();
    texts.join(":")
}

#[test]
fn full_and_shortened_ipv6_texts_read_back() {
    let mut state = 3u64;
    for round in 0..20_000u32 {
        let high = (next(&mut state) << 33) ^ (next(&mut state) << 2);
        let low = (next(&mut state) << 33) ^ (next(&mut state) << 2);
        let mut value = ((high as u128) << 64) | low as u128;
        let mask = next(&mut state);
        for group in 0..8 {
            if mask >> group & 1 == 1 {
                value &= !(0xffffu128 << (16 * group));
            }
        }
        let list = groups(value);
        let mut texts = vec![colons(&list, false), colons(&list, true)];
        let [a, b, c, d] = (value as u32).to_be_bytes();
        texts.push(format!("{}:{a}.{b}.{c}.{d}", colons(&list[..6], round % 2 == 0)));
        // Every run of zeros, whole or in part, may be left out.
        for from in 0..8 {
            for to in from + 1..=8 {
                if list[from..to].iter().all(|g| *g == 0) {
                    texts.push(format!(
                        "{}::{}",
                        colons(&list[..from], false),
                        colons(&list[to..], true)
                    ));
                }
            }
        }
        for text in texts {
            let chars: Vec<char> = text.chars().collect();
            assert_eq!(parse_ipv6(&chars), Some(value), "{text}");
            assert_eq!(parse_ipv4(&chars), None, "{text}");
        }
    }
}

#[test]
fn dotted_ipv4_texts_read_back() {
    let mut state = 5u64;
    for _ in 0..20_000 {
        let value = next(&mut state) as u32 ^ (next(&mut state) << 9) as u32;
        let [a, b, c, d] = value.to_be_bytes();
        let text = format!("{a}.{b}.{c}.{d}");
        let chars: Vec<char> = text.chars().collect();
        assert_eq!(parse_ipv4(&chars), Some(value), "{text}");
        assert_eq!(parse_ipv6(&chars), None, "{text}");
    }
}
