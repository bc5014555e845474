use piece_table::Text;

/// The same edit on a plain vector of bytes.
fn insert_plain(v: &mut Vec<u8>, off: usize, bytes: &[u8]) {
    let tail = v.split_off(off);
    v.extend_from_slice(bytes);
    v.extend_from_slice(&tail);
}

fn delete_plain(v: &mut Vec<u8>, off1: usize, off2: usize) {
    if off1 < off2 {
        v.drain(off1..off2);
    }
}

/// A small deterministic generator, so that the runs can be repeated.
struct Lcg(u64);

impl Lcg {
    fn next(&mut self, bound: u32) -> u32 {
        self.0 = self.0.wrapping_mul(6364136223846793005).wrapping_add(1442695040888963407);
        ((self.0 >> 33) as u32) % bound
    }
}

fn run(seed: u64, steps: usize) {
    let mut rng = Lcg(seed);
    let mut text = Text::new();
    let mut plain: Vec<u8> = Vec::new();
    let mut net: i64 = 0;
    for step in 0..steps {
        let len = plain.len() as u32;
        if rng.next(3) != 0 || len == 0 {
            let off = rng.next(len + 1);
            let n = rng.next(6);
            let bytes: Vec<u8> = (0..n).map(|_| rng.next(256) as u8).collect();
            text.insert(off, &bytes);
            insert_plain(&mut plain, off as usize, &bytes);
            net += bytes.len() as i64;
        } else {
            let a = rng.next(len + 1);
            let b = rng.next(len + 1);
            text.delete(a, b);
            delete_plain(&mut plain, a as usize, b as usize);
            if a < b {
                net -= (b - a) as i64;
            }
        }
        assert_eq!(text.len() as i64, net, "seed {} step {}", seed, step);
        assert_eq!(text.to_vec(), plain, "seed {} step {}", seed, step);
        assert!(text.check_invariant(), "seed {} step {}", seed, step);
        let mut bytes = text.bytes();
        for expected in &plain {
            assert_eq!(bytes.next(), Some(*expected));
        }
        assert_eq!(bytes.next(), None);
        let mut pieces = text.pieces();
        let mut covered = 0;
        let mut last = None;
        while let Some((off, _)) = pieces.next() {
            assert!(last.map_or(off == 0, |l| l < off));
            assert!(off < text.len() as u32);
            last = Some(off);
            covered += 1;
        }
        assert!(covered <= plain.len());
    }
}

#[test]
fn the_text_agrees_with_a_plain_byte_sequence() {
    for seed in 1..=20 {
        run(seed, 200);
    }
}

#[test]
fn the_text_agrees_with_a_plain_byte_sequence_on_a_long_run() {
    run(0xfeed, 3000);
}

#[test]
fn the_same_edits_on_both_give_the_same_text() {
    let mut text = Text::new();
    let mut plain: Vec<u8> = Vec::new();
    text.insert(0, b"The fox");
    insert_plain(&mut plain, 0, b"The fox");
    text.insert(4, b"quick ");
    insert_plain(&mut plain, 4, b"quick ");
    text.insert(10, b"brown ");
    insert_plain(&mut plain, 10, b"brown ");
    assert_eq!(text.to_vec(), b"The quick brown fox");
    text.delete(4, 10);
    delete_plain(&mut plain, 4, 10);
    assert_eq!(text.to_vec(), b"The brown fox");
    text.delete(2, 11);
    delete_plain(&mut plain, 2, 11);
    assert_eq!(text.to_vec(), b"Thox");
    assert_eq!(text.to_vec(), plain);
    assert_eq!(text.len(), 4);
}
