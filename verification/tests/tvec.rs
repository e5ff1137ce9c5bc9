use fastdoku::tvec::{
    band_config_counts, c16, c8, C16, C8, S0, S1, S2, S3, S4, S5, S6, S7, XX,
};
use fastdoku::Rng;

/// A candidate set: 9 bits, as every lane the engine builds is.
fn set9(rng: &mut Rng) -> u16 {
    (rng.next() & 0x1ff) as u16
}

fn read16(v: C16) -> [u16; 16] {
    let rows = v.extract_rows_u64();
    let mut out = [0u16; 16];
    for (r, row) in rows.iter().enumerate() {
        for c in 0..4 {
            out[r * 4 + c] = (row >> (16 * c)) as u16;
        }
    }
    out
}

fn read8(v: C8) -> [u16; 8] {
    let full = read16(C16::from_parts(v, v));
    full[..8].try_into().unwrap()
}

fn make16(a: &[u16; 16]) -> C16 {
    c16(a)
}

fn make8(a: &[u16; 8]) -> C8 {
    c8(a)
}

fn bytes(a: &[u16; 16]) -> [u8; 32] {
    let mut out = [0u8; 32];
    for (i, x) in a.iter().enumerate() {
        let b = x.to_le_bytes();
        out[2 * i] = b[0];
        out[2 * i + 1] = b[1];
    }
    out
}

/// Byte indices 0..16 select within the same 128-bit half, `XX` (0xffff, i.e.
/// bytes 0xff) selects nothing. Indices in 16..255 do not occur.
fn shuffle_ref(src: &[u16; 16], ctrl: &[u16; 16]) -> [u16; 16] {
    let sb = bytes(src);
    let cb = bytes(ctrl);
    let mut ob = [0u8; 32];
    for i in 0..32 {
        let idx = cb[i];
        assert!(idx < 16 || idx == 0xff, "control byte outside the contract");
        if idx < 16 {
            ob[i] = sb[(i / 16) * 16 + idx as usize];
        }
    }
    core::array::from_fn(|i| u16::from_le_bytes([ob[2 * i], ob[2 * i + 1]]))
}

/// A random control table over lane selectors and XX.
fn random_ctrl(rng: &mut Rng) -> [u16; 16] {
    let sel: [u16; 8] = [S0, S1, S2, S3, S4, S5, S6, S7];
    let mut ctrl = [0u16; 16];
    for slot in ctrl.iter_mut() {
        let r = rng.next();
        *slot = if r & 7 == 0 { XX } else { sel[(r >> 8) as usize % 8] };
    }
    ctrl
}

#[test]
fn c16_bitwise_and_layout() {
    let mut rng = Rng(0x9e37_79b9_7f4a_7c15);
    for _ in 0..500 {
        let a: [u16; 16] = core::array::from_fn(|_| set9(&mut rng));
        let b: [u16; 16] = core::array::from_fn(|_| set9(&mut rng));
        let (va, vb) = (make16(&a), make16(&b));
        assert_eq!(read16(va), a, "load/read round trip");
        assert_eq!(read16(va.and(vb)), core::array::from_fn(|i| a[i] & b[i]));
        assert_eq!(read16(va.or(vb)), core::array::from_fn(|i| a[i] | b[i]));
        assert_eq!(read16(va.xor(vb)), core::array::from_fn(|i| a[i] ^ b[i]));
        assert_eq!(read16(va.and_not(vb)), core::array::from_fn(|i| a[i] & !b[i]));
        assert_eq!(
            read16(va.which_equal(vb)),
            core::array::from_fn(|i| if a[i] == b[i] { 0xffff } else { 0 })
        );
        assert_eq!(
            read16(va.which_nonzero()),
            core::array::from_fn(|i| if a[i] != 0 { 0xffff } else { 0 })
        );
        assert_eq!(
            read16(va.popcounts9()),
            core::array::from_fn(|i| a[i].count_ones() as u16)
        );
        assert_eq!(va.subset_of(vb), (0..16).all(|i| a[i] & !b[i] == 0));
        assert_eq!(va.any_less_than(vb), (0..16).any(|i| a[i] < b[i]));
    }
}

#[test]
fn c16_lane_movement() {
    let mut rng = Rng(0x243f_6a88_85a3_08d3);
    for _ in 0..500 {
        let a: [u16; 16] = core::array::from_fn(|_| set9(&mut rng));
        let va = make16(&a);
        let ctrl = random_ctrl(&mut rng);
        assert_eq!(read16(va.shuffle(make16(&ctrl))), shuffle_ref(&a, &ctrl));
        assert_eq!(
            read16(va.shift_rows_up1()),
            core::array::from_fn(|i| if i % 4 == 0 { 0 } else { a[i - 1] })
        );
        assert_eq!(
            read16(va.shift_rows_up2()),
            core::array::from_fn(|i| if i % 4 < 2 { 0 } else { a[i - 2] })
        );
        assert_eq!(
            read16(va.row_peers()),
            core::array::from_fn(|i| {
                let (r, c) = (i / 4, i % 4);
                (0..4).filter(|k| *k != c).fold(0, |u, k| u | a[r * 4 + k])
            })
        );
        assert_eq!(
            read16(va.col_peers()),
            core::array::from_fn(|i| {
                let (r, c) = (i / 4, i % 4);
                (0..4).filter(|k| *k != r).fold(0, |u, k| u | a[k * 4 + c])
            })
        );
        // Its one caller always hands it a vector already masked to the nine
        // cell lanes, so the model masks too.
        let cellsonly: [u16; 16] =
            core::array::from_fn(|i| if i / 4 < 3 && i % 4 < 3 { a[i] } else { 0 });
        let col = |c: usize| (0..4).fold(0, |u, r| u | cellsonly[r * 4 + c]);
        assert_eq!(
            read16(make16(&cellsonly).box_and_column_unions()),
            core::array::from_fn(|i| match (i / 4, i % 4) {
                (3, c) => col(c),
                (_, 3) => 0,
                _ => (0..3).fold(0, |u, k| u | col(k)),
            })
        );
        assert_eq!(read16(C16::from_parts(va.get_lo(), va.get_hi())), a);
        assert_eq!(read8(va.get_lo()), a[..8]);
        assert_eq!(read8(va.get_hi()), a[8..]);
    }
}

#[test]
fn c16_broadcasts() {
    let mut rng = Rng(0xb504_f333_f9de_6484);
    assert_eq!(read16(C16::all(0x1ff)), [0x1ff; 16]);
    for _ in 0..200 {
        let v = rng.next();
        assert_eq!(
            read16(C16::splat_u64(v)),
            core::array::from_fn(|i| (v >> (16 * (i % 4))) as u16)
        );
    }
}

#[test]
fn c8_operations() {
    let mut rng = Rng(0x1357_9bdf_2468_ace0);
    for _ in 0..500 {
        let a: [u16; 8] = core::array::from_fn(|_| set9(&mut rng));
        let b: [u16; 8] = core::array::from_fn(|_| set9(&mut rng));
        let (va, vb) = (make8(&a), make8(&b));
        let ctrl = random_ctrl(&mut rng);
        let ctrl8: [u16; 8] = ctrl[..8].try_into().unwrap();
        let mut wide = [0u16; 16];
        wide[..8].copy_from_slice(&a);
        let mut wide_ctrl = [0u16; 16];
        wide_ctrl[..8].copy_from_slice(&ctrl8);
        assert_eq!(read8(va), a);
        assert_eq!(read8(C8::zero()), [0; 8]);
        assert_eq!(read8(C8::all(0x1ff)), [0x1ff; 8]);
        assert_eq!(read8(va.and(vb)), core::array::from_fn(|i| a[i] & b[i]));
        assert_eq!(read8(va.or(vb)), core::array::from_fn(|i| a[i] | b[i]));
        assert_eq!(read8(va.xor(vb)), core::array::from_fn(|i| a[i] ^ b[i]));
        assert_eq!(read8(va.and_not(vb)), core::array::from_fn(|i| a[i] & !b[i]));
        assert_eq!(
            read8(va.shuffle(make8(&ctrl8))),
            shuffle_ref(&wide, &wide_ctrl)[..8]
        );
        assert_eq!(read8(va.rotate_cols()), core::array::from_fn(|i| a[(i + 4) % 8]));
        assert_eq!(va.all_zero(), a.iter().all(|x| *x == 0));
        assert_eq!(va.intersects(vb), (0..8).any(|i| a[i] & b[i] != 0));
        assert_eq!(
            read8(va.low_bit_per_lane()),
            core::array::from_fn(|i| a[i] & a[i].wrapping_neg())
        );
    }
}

#[test]
fn c8_clear_low_bit() {
    let mut rng = Rng(0xcafe_f00d_dead_beef);
    let as_int = |a: &[u16; 8]| {
        a.iter()
            .enumerate()
            .fold(0u128, |acc, (i, x)| acc | ((*x as u128) << (16 * i)))
    };
    for _ in 0..2000 {
        // The caller never passes an empty vector, but sparse ones whose low
        // 64 bits are zero are the interesting case: that is where the
        // 128-bit borrow has to happen.
        let mut a = [0u16; 8];
        let lane = (rng.next() % 8) as usize;
        a[lane] = 1 << (rng.next() % 9);
        for slot in a.iter_mut().skip(lane + 1) {
            if rng.next() & 1 == 0 {
                *slot = set9(&mut rng);
            }
        }
        let x = as_int(&a);
        let got = read8(make8(&a).clear_low_bit());
        assert_eq!(as_int(&got), x & (x - 1), "a = {a:?}");
    }
}

#[test]
fn band_counts_pack() {
    let mut rng = Rng(0x2545_f491_4f6c_dd1d);
    for _ in 0..500 {
        let bands: [[u16; 8]; 6] =
            core::array::from_fn(|_| core::array::from_fn(|_| set9(&mut rng)));
        let got = read8(band_config_counts(bands.map(|b| make8(&b))));
        for (i, band) in bands.iter().enumerate() {
            let total: u32 = band.iter().map(|x| x.count_ones()).sum();
            assert_eq!(got[i], total as u16, "band {i} of {bands:?}");
        }
        assert_eq!(&got[6..], &[0xffff, 0xffff], "sentinel lanes");
    }
}

/// The lane is in bits 16..19, and bits 0..16 hold the adjusted minimum when
/// that is below 256, and something >= 256 when every lane is under the floor.
#[test]
fn c8_minpos() {
    let mut rng = Rng(0x0123_4567_89ab_cdef);
    for _ in 0..5000 {
        let floor = 10u16;
        // The caller's alphabet: a band's total configuration count, which is
        // 9 exactly when the band is fixed, and 0xffff padding.
        let a: [u16; 8] = core::array::from_fn(|_| match rng.next() % 8 {
            0 => 0xffff,
            1 => 9,
            _ => 10 + (rng.next() % 45) as u16,
        });
        let got = make8(&a).minpos_after_sub(floor);
        let live = a
            .iter()
            .enumerate()
            .filter(|(_, x)| **x >= floor && **x != 0xffff)
            .map(|(i, x)| (i, x - floor))
            .min_by_key(|(i, v)| (*v, *i));
        match live {
            None => assert_ne!(got & 0xff00, 0, "a = {a:?}"),
            Some((lane, value)) => {
                assert_eq!(got & 0xffff, value as u32, "a = {a:?}");
                assert_eq!(got >> 16, lane as u32, "a = {a:?}");
            }
        }
    }
}
