use egsphsp::{
    combine, compare, map_records, randomize, read_file, sample_combine, write_file, EGSError,
    Mode, PHSPReader, PHSPWriter, Record, SampleRate,
};
use byteorder::{ByteOrder, LittleEndian};
use float_cmp::ApproxEqUlps;

fn push_u32(out: &mut Vec<u8>, x: u32) {
    out.extend_from_slice(&x.to_le_bytes());
}

fn push_i32(out: &mut Vec<u8>, x: i32) {
    out.extend_from_slice(&x.to_le_bytes());
}

fn push_f32(out: &mut Vec<u8>, x: f32) {
    out.extend_from_slice(&x.to_le_bytes());
}

/// One record as seven (or eight) little-endian words.
fn push_record(out: &mut Vec<u8>, latch: u32, e: f32, x: f32, y: f32, xc: f32, yc: f32, w: f32) {
    push_u32(out, latch);
    push_f32(out, e);
    push_f32(out, x);
    push_f32(out, y);
    push_f32(out, xc);
    push_f32(out, yc);
    push_f32(out, w);
}

/// A small MODE0 file image with the given records.
fn make_file(records: &[(u32, f32, f32, f32, f32, f32, f32)]) -> Vec<u8> {
    let mut out = Vec::new();
    out.extend_from_slice(b"MODE0");
    push_i32(&mut out, records.len() as i32);
    let photons = records.iter().filter(|r| r.0 & 0x4000_0000 == 0).count();
    push_i32(&mut out, photons as i32);
    push_f32(&mut out, 0.19944459); // max energy
    push_f32(&mut out, 0.012462342); // min energy
    push_f32(&mut out, 10000.0); // source particles
    while out.len() < 28 {
        out.push(0);
    }
    for r in records {
        push_record(&mut out, r.0, r.1, r.2, r.3, r.4, r.5, r.6);
    }
    out
}

fn two_record_file() -> Vec<u8> {
    make_file(&[
        (0x0000_0001, 0.15, 1.5, -2.5, 0.1, 0.2, 0.9),
        (0x4000_0002, -0.05, 0.0, 3.25, -0.25, 0.5, -1.75),
    ])
}

fn add_f32(a: u32, b: u32) -> u32 {
    (f32::from_bits(a) + f32::from_bits(b)).to_bits()
}

#[test]
fn header_fields_decoded_exactly() {
    let data = two_record_file();
    let reader = PHSPReader::from(data).unwrap();
    assert_eq!(reader.header.record_size, 28);
    assert_eq!(reader.header.total_particles, 2);
    assert_eq!(reader.header.total_photons, 1);
    assert!(f32::from_bits(reader.header.max_energy).approx_eq_ulps(&0.19944459, 2));
    assert!(f32::from_bits(reader.header.min_energy).approx_eq_ulps(&0.012462342, 2));
    assert!(f32::from_bits(reader.header.total_particles_in_source)
        .approx_eq_ulps(&10000.0f32, 2));
    assert!(!reader.header.using_zlast);
    assert_eq!(reader.header.mode, Mode::Mode0);
}

#[test]
fn reader_hands_out_records_in_order() {
    let data = two_record_file();
    let mut reader = PHSPReader::from(data).unwrap();
    let first = reader.next().unwrap();
    assert_eq!(first.latch, 1);
    assert_eq!(first.x_cm, 1.5f32.to_bits());
    assert_eq!(first.y_cm, (-2.5f32).to_bits());
    assert_eq!(first.weight, 0.9f32.to_bits());
    assert_eq!(first.zlast, None);
    let second = reader.next().unwrap();
    assert_eq!(second.latch, 0x4000_0002);
    assert_eq!(second.total_energy(), 0.05f32.to_bits());
    assert!(second.first_scored_by_primary_history());
    assert!(!second.z_positive());
    assert!(reader.next().is_none());
}

#[test]
fn bad_mode_is_rejected() {
    let mut data = two_record_file();
    data[4] = b'9';
    assert_eq!(PHSPReader::from(data).err(), Some(EGSError::BadMode));
}

#[test]
fn bad_length_is_rejected() {
    let mut data = two_record_file();
    data.pop();
    assert_eq!(PHSPReader::from(data).err(), Some(EGSError::BadLength));
    let short = b"MODE0".to_vec();
    assert_eq!(PHSPReader::from(short).err(), Some(EGSError::BadLength));
}

#[test]
fn le_words_match_byteorder() {
    for x in [0u32, 1, 0xDEAD_BEEF, u32::MAX, 0x0102_0304] {
        let mut mine = Vec::new();
        egsphsp::codec::push_le32(&mut mine, x);
        let mut theirs = [0u8; 4];
        LittleEndian::write_u32(&mut theirs, x);
        assert_eq!(mine.as_slice(), &theirs);
        assert_eq!(egsphsp::codec::get_le32(&mine, 0), LittleEndian::read_u32(&theirs));
    }
}

#[test]
fn ulps_comparison_matches_reference_crate() {
    let values = [
        0.0f32, -0.0, 1.0, -1.0, 1.0000001, 0.99999994, 10000.0, 10000.001, f32::MIN_POSITIVE,
        -f32::MIN_POSITIVE, 0.19944459, 0.19944461,
    ];
    for &a in &values {
        for &b in &values {
            for tol in [0u32, 1, 2, 10] {
                let mine = egsphsp::binary32::ulps_eq(a.to_bits(), b.to_bits(), tol);
                let theirs = a.approx_eq_ulps(&b, tol as i32);
                assert_eq!(mine, theirs, "ulps mismatch for {} vs {} at {}", a, b, tol);
            }
        }
    }
}

#[test]
fn latch_accessors_pick_their_bits() {
    let data = make_file(&[(0x6000_0F01, 0.1, 0.0, 0.0, 0.0, 0.0, 1.0)]);
    let (_, records) = read_file(&data).unwrap();
    let r = records[0];
    assert!(r.bremsstrahlung_or_annihilation());
    assert_eq!(r.bit_region(), 0x6000_0F01 & 0x00FF_FFFE);
    assert_eq!(r.region_number(), 0x6000_0F01 & 0x0F00_0000);
    assert!(r.b29());
    assert!(r.charged());
    assert!(r.crossed_multiple());
}

#[test]
fn weight_keeps_its_direction_flag() {
    let data = make_file(&[(0, 0.1, 0.0, 0.0, 0.0, 0.0, -1.75)]);
    let (_, records) = read_file(&data).unwrap();
    let mut r = records[0];
    assert_eq!(r.get_weight(), 1.75f32.to_bits());
    assert!(!r.z_positive());
    r.set_weight(0.5f32.to_bits());
    assert_eq!(r.get_weight(), 0.5f32.to_bits());
    assert!(!r.z_positive(), "the stored direction must survive a new weight");
}

#[test]
fn merge_with_itself_doubles_counts() {
    let data = two_record_file();
    let (mut h, _) = read_file(&data).unwrap();
    let copy = h;
    h.merge(&copy, &add_f32);
    assert_eq!(h.total_particles, 4);
    assert_eq!(h.total_photons, 2);
    assert_eq!(h.min_energy, copy.min_energy);
    assert_eq!(h.max_energy, copy.max_energy);
    assert_eq!(f32::from_bits(h.total_particles_in_source), 20000.0);
}

#[test]
fn combine_single_input_is_byte_identical() {
    let data = two_record_file();
    let inputs = vec![data.clone()];
    let out = combine(&inputs, &add_f32).unwrap();
    assert_eq!(out, data);
}

#[test]
fn combine_with_itself_doubles_the_file() {
    let data = two_record_file();
    let inputs = vec![data.clone(), data.clone()];
    let out = combine(&inputs, &add_f32).unwrap();
    let (h, records) = read_file(&out).unwrap();
    assert_eq!(h.total_particles, 4);
    assert_eq!(h.total_photons, 2);
    assert_eq!(records.len(), 4);
    let (_, original) = read_file(&data).unwrap();
    // the first run of records is the first input's, in order
    for i in 0..2 {
        assert_eq!(records[i].latch, original[i].latch);
        assert_eq!(records[i].x_cm, original[i].x_cm);
        assert_eq!(records[i].weight, original[i].weight);
        assert_eq!(records[i + 2].latch, original[i].latch);
    }
    assert!(f32::from_bits(h.total_particles_in_source).approx_eq_ulps(&20000.0f32, 2));
}

/// A one-record file image in the longer layout, with a trailing field.
fn long_layout_file() -> Vec<u8> {
    let mut out = Vec::new();
    out.extend_from_slice(b"MODE2");
    push_i32(&mut out, 1);
    push_i32(&mut out, 1);
    push_f32(&mut out, 0.2);
    push_f32(&mut out, 0.1);
    push_f32(&mut out, 50.0);
    while out.len() < 32 {
        out.push(0);
    }
    push_record(&mut out, 4, 0.15, 1.0, 2.0, 0.0, 0.0, 1.0);
    push_f32(&mut out, 7.5); // the trailing field
    out
}

#[test]
fn combine_rejects_mixed_modes() {
    let inputs = vec![two_record_file(), long_layout_file()];
    assert_eq!(combine(&inputs, &add_f32).err(), Some(EGSError::ModeMismatch));
}

#[test]
fn long_layout_roundtrips_with_trailing_field() {
    let data = long_layout_file();
    let (header, records) = read_file(&data).unwrap();
    assert_eq!(header.record_size, 32);
    assert!(header.using_zlast);
    assert_eq!(records[0].zlast, Some(7.5f32.to_bits()));
    assert_eq!(write_file(&header, &records), data);
    let out = combine(&vec![data.clone()], &add_f32).unwrap();
    assert_eq!(out, data);
}

#[test]
fn compare_same_file_succeeds() {
    let data = two_record_file();
    assert_eq!(compare(&data, &data), Ok(()));
}

#[test]
fn compare_flags_a_moved_record() {
    let data = two_record_file();
    let mut moved = make_file(&[
        (0x0000_0001, 0.15, 1.52, -2.5, 0.1, 0.2, 0.9),
        (0x4000_0002, -0.05, 0.0, 3.25, -0.25, 0.5, -1.75),
    ]);
    assert_eq!(compare(&data, &moved), Err(EGSError::RecordMismatch));
    // a shift below the hundredth tolerance passes
    moved = make_file(&[
        (0x0000_0001, 0.15, 1.501, -2.5, 0.1, 0.2, 0.9),
        (0x4000_0002, -0.05, 0.0, 3.25, -0.25, 0.5, -1.75),
    ]);
    assert_eq!(compare(&data, &moved), Ok(()));
}

#[test]
fn compare_flags_different_headers() {
    let data = two_record_file();
    let other = make_file(&[(0x0000_0001, 0.15, 1.5, -2.5, 0.1, 0.2, 0.9)]);
    assert_eq!(compare(&data, &other), Err(EGSError::HeaderMismatch));
}

#[test]
fn randomize_keeps_every_record_once() {
    let mut recs = Vec::new();
    for i in 0..20 {
        recs.push((i as u32, 0.1 + i as f32 * 0.001, i as f32, -(i as f32), 0.0, 0.1, 1.0));
    }
    let data = make_file(&recs);
    let out1 = randomize(&data, 7).unwrap();
    let out2 = randomize(&data, 7).unwrap();
    let out3 = randomize(&data, 8).unwrap();
    assert_eq!(out1, out2, "the same seed must reproduce the same order");
    assert_ne!(out1, out3, "different seeds should give different orders");
    let (h, shuffled) = read_file(&out1).unwrap();
    let (h0, original) = read_file(&data).unwrap();
    assert_eq!(h.total_particles, h0.total_particles);
    assert_eq!(h.total_photons, h0.total_photons);
    let mut a: Vec<u32> = shuffled.iter().map(|r| r.latch).collect();
    let mut b: Vec<u32> = original.iter().map(|r| r.latch).collect();
    assert_ne!(a, b, "twenty records should not come back in file order");
    a.sort();
    b.sort();
    assert_eq!(a, b, "every record must come back exactly once");
}

#[test]
fn sample_combine_keeps_all_at_full_rate() {
    let data = two_record_file();
    let inputs = vec![data.clone(), data.clone()];
    let scale = |s: u32| s; // a full rate leaves the source count alone
    let out = sample_combine(&inputs, SampleRate::KeepAll, 0, &add_f32, &scale).unwrap();
    let (h, records) = read_file(&out).unwrap();
    assert_eq!(h.total_particles, 4);
    assert_eq!(records.len(), 4);
    assert_eq!(h.total_photons, 2);
    assert!(f32::from_bits(h.min_energy).approx_eq_ulps(&0.15f32, 2));
    assert!(f32::from_bits(h.max_energy).approx_eq_ulps(&0.15f32, 2));
}

#[test]
fn sample_combine_keeps_none_at_zero_rate() {
    let data = two_record_file();
    let inputs = vec![data];
    let scale = |_s: u32| 0.0f32.to_bits();
    let out = sample_combine(&inputs, SampleRate::Threshold(0), 0, &add_f32, &scale).unwrap();
    let (h, records) = read_file(&out).unwrap();
    assert_eq!(h.total_particles, 0);
    assert_eq!(records.len(), 0);
    assert!(f32::from_bits(h.min_energy).approx_eq_ulps(&1000.0f32, 2));
    assert_eq!(h.max_energy, 0.0f32.to_bits());
}

#[test]
fn sample_combine_near_half_rate_keeps_about_half() {
    let mut recs = Vec::new();
    for i in 0..200 {
        recs.push((i as u32, 0.1, 0.0, 0.0, 0.0, 0.0, 1.0));
    }
    let data = make_file(&recs);
    let inputs = vec![data];
    let scale = |s: u32| (f32::from_bits(s) * 0.5).to_bits();
    let threshold = (0.5f64 * 2.0f64.powi(64)) as u64;
    let out =
        sample_combine(&inputs, SampleRate::Threshold(threshold), 3, &add_f32, &scale).unwrap();
    let (h, _) = read_file(&out).unwrap();
    assert!((h.total_particles - 100).abs() < 50, "kept {}", h.total_particles);
}

#[test]
fn translate_moves_positions_and_leaves_directions() {
    let data = two_record_file();
    let (dx, dy) = (5.0f32, 5.0f32);
    let shift = move |r: Record| {
        let x = (f32::from_bits(r.x_cm) + dx).to_bits();
        let y = (f32::from_bits(r.y_cm) + dy).to_bits();
        r.with_geometry(x, y, r.x_cos, r.y_cos)
    };
    let out = map_records(&data, &shift).unwrap();
    let (_, moved) = read_file(&out).unwrap();
    let (_, original) = read_file(&data).unwrap();
    for (m, o) in moved.iter().zip(original.iter()) {
        assert!(f32::from_bits(m.x_cm).approx_eq_ulps(&(f32::from_bits(o.x_cm) + dx), 2));
        assert!(f32::from_bits(m.y_cm).approx_eq_ulps(&(f32::from_bits(o.y_cm) + dy), 2));
        assert_eq!(m.x_cos, o.x_cos);
        assert_eq!(m.y_cos, o.y_cos);
    }
    // translating back restores the file to within tolerance
    let back = move |r: Record| {
        let x = (f32::from_bits(r.x_cm) - dx).to_bits();
        let y = (f32::from_bits(r.y_cm) - dy).to_bits();
        r.with_geometry(x, y, r.x_cos, r.y_cos)
    };
    let restored = map_records(&out, &back).unwrap();
    assert_eq!(compare(&data, &restored), Ok(()));
}

#[test]
fn identity_map_is_byte_identical() {
    let data = two_record_file();
    let out = map_records(&data, &|r: Record| r).unwrap();
    assert_eq!(out, data);
}

fn rotation(theta: f32) -> [[f32; 3]; 3] {
    [
        [theta.cos(), -theta.sin(), 0.0],
        [theta.sin(), theta.cos(), 0.0],
        [0.0, 0.0, 1.0],
    ]
}

fn apply(matrix: [[f32; 3]; 3]) -> impl Fn(Record) -> Record {
    move |r: Record| {
        let x = f32::from_bits(r.x_cm);
        let y = f32::from_bits(r.y_cm);
        let xc = f32::from_bits(r.x_cos);
        let yc = f32::from_bits(r.y_cos);
        let zc = (1.0 - (xc * xc + yc * yc)).sqrt();
        let nx = matrix[0][0] * x + matrix[0][1] * y + matrix[0][2] * 1.0;
        let ny = matrix[1][0] * x + matrix[1][1] * y + matrix[1][2] * 1.0;
        let nxc = matrix[0][0] * xc + matrix[0][1] * yc + matrix[0][2] * zc;
        let nyc = matrix[1][0] * xc + matrix[1][1] * yc + matrix[1][2] * zc;
        r.with_geometry(nx.to_bits(), ny.to_bits(), nxc.to_bits(), nyc.to_bits())
    }
}

#[test]
fn rotating_there_and_back_is_similar() {
    let data = two_record_file();
    let there = map_records(&data, &apply(rotation(std::f32::consts::PI))).unwrap();
    let back = map_records(&there, &apply(rotation(std::f32::consts::PI))).unwrap();
    assert_eq!(compare(&data, &back), Ok(()));
}

#[test]
fn reflecting_twice_is_similar() {
    // reflection about the x axis via the standard construction
    let (xr, yr) = (1.0f32, 0.0f32);
    let norm = (xr * xr + yr * yr).sqrt();
    let (x, y) = (xr / norm, yr / norm);
    let reflection = [
        [x * x - y * y, 2.0 * x * y, 0.0],
        [2.0 * x * y, y * y - x * x, 0.0],
        [0.0, 0.0, 1.0],
    ];
    let data = two_record_file();
    let once = map_records(&data, &apply(reflection)).unwrap();
    let twice = map_records(&once, &apply(reflection)).unwrap();
    assert_eq!(compare(&data, &twice), Ok(()));
}

#[test]
fn writer_and_reader_invert_each_other() {
    let data = two_record_file();
    let (header, records) = read_file(&data).unwrap();
    let mut writer = PHSPWriter::from(&header);
    for r in &records {
        writer.write(r);
    }
    assert_eq!(writer.into_bytes(), data);
    assert_eq!(write_file(&header, &records), data);
}

#[test]
fn error_messages_name_the_failure() {
    assert!(EGSError::BadMode.message().contains("MODE0"));
    assert!(EGSError::BadLength.message().contains("length"));
    assert_eq!(EGSError::HeaderMismatch.message(), "Headers are different");
    assert_eq!(EGSError::RecordMismatch.message(), "Records are different");
    assert!(EGSError::ModeMismatch.message().contains("not match"));
}
