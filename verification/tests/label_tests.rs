use battery_log::api::{get_label_png, png_name, save_labels_pdf};
use battery_log::db::Db;
use battery_log::dict::Dict;
use battery_log::labels::{
    compose, decode_payload, draw_symbol, encode_payload, head_layout, ink_places, label_draft,
    print_pins, render_datamatrix, InkBounds, Raster, MAX_ID,
};
use battery_log::pdf::PdfLayout;
use battery_log::printing::{
    advanced_mode_settings_bytes, job_bytes, pack_bits, packed_raster_line,
    print_information_bytes, various_mode_settings_bytes,
};

const HEAD_BYTES: usize = 16;

#[test]
fn head_layout_pins_always_sum_to_128() {
    for tape_mm_x10 in [35, 60, 90, 120, 180, 240] {
        let (margin, print_area) = head_layout(tape_mm_x10).unwrap();
        assert_eq!(margin * 2 + print_area, 128, "tape {tape_mm_x10}: margins + print area must fill the head");
    }
}

#[test]
fn an_unknown_tape_has_no_layout() {
    assert_eq!(head_layout(100), None);
    assert_eq!(print_pins(0), None);
    assert_eq!(print_pins(90), Some(50));
}

#[test]
fn a_pixel_at_the_print_areas_edge_lands_at_the_margin_offset() {
    let (margin_pins, print_area_pins) = head_layout(90).unwrap();
    let mut label = Raster::blank(1, print_area_pins);
    label.set(0, 0, true);

    let packed = packed_raster_line(&label, 0, margin_pins);

    let expected_byte = (margin_pins / 8) as usize;
    let expected_bit = 0x80u8 >> (margin_pins % 8);
    for (i, byte) in packed.iter().enumerate() {
        if i == expected_byte {
            assert_eq!(*byte, expected_bit, "the lit pixel should set exactly bit {margin_pins} (byte {expected_byte})");
        } else {
            assert_eq!(*byte, 0, "every other byte should stay zero");
        }
    }
}

#[test]
fn a_raster_line_is_a_column_of_the_label_not_a_row() {
    let (margin_pins, print_area_pins) = head_layout(90).unwrap();
    let mut label = Raster::blank(5, print_area_pins);
    label.set(2, 3, true);

    let column_2 = packed_raster_line(&label, 2, margin_pins);
    let column_0 = packed_raster_line(&label, 0, margin_pins);

    let pin = margin_pins + 3;
    let bit_set = column_2[(pin / 8) as usize] & (0x80 >> (pin % 8)) != 0;
    assert!(bit_set, "column x=2 should carry the pixel at y=3");
    assert_eq!(column_0, [0u8; HEAD_BYTES], "column x=0 has no lit pixel and must stay all zero");
}

#[test]
fn print_information_always_claims_starting_page_regardless_of_position() {
    let bytes = print_information_bytes(9, 100);
    assert_eq!(bytes[11], 0x00, "n9 (starting page) must always be 0");
}

#[test]
fn various_mode_settings_sets_only_the_auto_cut_bit() {
    assert_eq!(various_mode_settings_bytes(true)[3], 0x40);
    assert_eq!(various_mode_settings_bytes(false)[3], 0x00);
}

#[test]
fn advanced_mode_settings_always_declares_no_chain_printing() {
    assert_eq!(advanced_mode_settings_bytes(false)[3], 0x08, "half_cut off: only the no-chain-printing bit");
    assert_eq!(advanced_mode_settings_bytes(true)[3], 0x0c, "half_cut on: no-chain-printing + half-cut bits");
}

fn unpack_bits(data: &[u8]) -> Vec<u8> {
    let mut out = Vec::new();
    let mut i = 0;
    while i < data.len() {
        let control = data[i] as i8;
        i += 1;
        if control >= 0 {
            let len = control as usize + 1;
            out.extend_from_slice(&data[i..i + len]);
            i += len;
        } else if control != -128 {
            let count = 1 - control as i32;
            out.extend(std::iter::repeat(data[i]).take(count as usize));
            i += 1;
        }
    }
    out
}

#[test]
fn pack_bits_round_trips_an_all_repeated_line() {
    let repeated = [0x5au8; HEAD_BYTES];
    assert_eq!(unpack_bits(&pack_bits(&repeated.to_vec())), repeated);
}

#[test]
fn pack_bits_round_trips_all_distinct_bytes() {
    let mut distinct = [0u8; HEAD_BYTES];
    for (i, b) in distinct.iter_mut().enumerate() {
        *b = i as u8 * 15 + 1; // no two equal, none zero, stays under 256
    }
    assert_eq!(unpack_bits(&pack_bits(&distinct.to_vec())), distinct);
}

#[test]
fn pack_bits_round_trips_a_mix_of_runs_and_literals() {
    let mixed: [u8; HEAD_BYTES] = [1, 1, 1, 2, 3, 4, 4, 4, 4, 4, 4, 5, 6, 7, 7, 9];
    assert_eq!(unpack_bits(&pack_bits(&mixed.to_vec())), mixed);
}

#[test]
fn payload_round_trips_through_zero_padding() {
    assert_eq!(encode_payload(7).unwrap(), "007");
    assert_eq!(decode_payload("007").unwrap(), 7);
    assert_eq!(decode_payload("7").unwrap(), 7);
    assert_eq!(decode_payload("  012 ").unwrap(), 12);
}

#[test]
fn encode_payload_rejects_out_of_range_ids() {
    assert!(encode_payload(0).is_err());
    assert!(encode_payload(-1).is_err());
    assert!(encode_payload(MAX_ID + 1).is_err());
    assert!(encode_payload(MAX_ID).is_ok());
}

#[test]
fn decode_payload_rejects_input_with_no_digits() {
    assert!(decode_payload("").is_err());
    assert!(decode_payload("abc").is_err());
}

#[test]
fn datamatrix_renders_a_square_symbol_with_quiet_zone() {
    let raster = render_datamatrix("007", 4).unwrap();
    // Square, and strictly larger than the bare (no-quiet-zone) symbol would
    // be, since a 1-module quiet zone is added on every side.
    assert_eq!(raster.width, raster.height);
    assert!(raster.width % 4 == 0);
    // The quiet zone itself must be blank.
    for x in 0..raster.width {
        assert!(!raster.get(x, 0), "top quiet zone row should be blank");
    }
    for y in 0..raster.height {
        assert!(!raster.get(0, y), "left quiet zone column should be blank");
    }
}

#[test]
fn a_canvas_drops_what_is_outside_it() {
    let mut r = Raster::blank(3, 2);
    r.set(-1, 0, true);
    r.set(3, 0, true);
    r.set(2, 1, true);
    assert!(r.get(2, 1) && !r.get(0, 0));
    let mut big = Raster::blank(4, 4);
    big.paste(&r, 1, 2);
    assert!(big.get(3, 3));
    big.paste(&r, 3, 3);
    assert_eq!(big.grey_bytes().iter().filter(|b| **b == 0).count(), 1);
}

#[test]
fn a_canvas_becomes_a_png_file() {
    let mut r = Raster::blank(2, 1);
    r.set(1, 0, true);
    let bytes = r.to_png_bytes().unwrap();
    assert_eq!(&bytes[..8], b"\x89PNG\r\n\x1a\n");
    let picture = image::load_from_memory(&bytes).unwrap().to_luma8();
    assert_eq!(picture.dimensions(), (2, 1));
    assert_eq!((picture.get_pixel(0, 0).0[0], picture.get_pixel(1, 0).0[0]), (255, 0));
}

#[test]
fn a_symbol_is_drawn_module_by_module() {
    let r = draw_symbol(2, &vec![(0, 0), (1, 1)], 3);
    assert_eq!((r.width, r.height), (12, 12));
    assert!(r.get(3, 3) && r.get(5, 5) && r.get(6, 6) && r.get(8, 8));
    assert!(!r.get(6, 3) && !r.get(2, 3) && !r.get(9, 9));
}

#[test]
fn a_label_is_put_together() {
    let draft = label_draft(7, 90, 2, 5).unwrap();
    assert_eq!((draft.height, draft.id_text.as_str(), draft.size_px), (50, "007", 20));
    // Ten modules and the quiet zone fit at four dots each.
    assert_eq!((draft.symbol.width, draft.symbol.height), (48, 48));
    let mut c = compose(&draft, InkBounds { min_x: 1, min_y: -14, max_x: 31, max_y: 0 });
    assert_eq!((c.raster.width, c.raster.height), (6 + 48 + 8 + 30 + 6, 50));
    assert_eq!((c.draw_x, c.draw_y_halves), (6 + 48 + 8 - 1, 50 - 14 + 28));
    for x in 0..48 {
        for y in 0..48 {
            assert_eq!(c.raster.get(x + 6, y + 1), draft.symbol.get(x, y));
        }
    }
    ink_places(&mut c.raster, &vec![(70, 20), (-1, 5), (500, 5)]);
    assert!(c.raster.get(70, 20));

    let small = label_draft(7, 35, 2, 5).unwrap();
    assert_eq!((small.height, small.symbol.width, small.size_px), (24, 24, 10));
    assert_eq!(
        label_draft(7, 105, 2, 5).unwrap_err(),
        "Tape width 10.5 mm is not one this printer supports."
    );
    assert_eq!(
        label_draft(0, 90, 2, 5).unwrap_err(),
        "A battery id must be a whole number of 1 or more, not 0."
    );
    assert!(label_draft(1000, 90, 2, 5).unwrap_err().contains("above the limit of 999"));
}

#[test]
fn a_job_is_framed_for_the_printer() {
    let labels = vec![Raster::blank(2, 50), Raster::blank(1, 50)];
    let single = job_bytes(&labels, 90, false, true).unwrap();
    assert!(single[..200].iter().all(|b| *b == 0));
    assert_eq!(&single[200..206], &[0x1b, 0x40, 0x1b, 0x69, 0x61, 0x01]);
    // Two blank lines and one, and every label is fed out.
    assert_eq!(single.iter().filter(|b| **b == 0x5a).count(), 3);
    assert_eq!(single.iter().filter(|b| **b == 0x1a).count(), 2);
    let chained = job_bytes(&labels, 90, true, true).unwrap();
    assert_eq!(chained.iter().filter(|b| **b == 0x1a).count(), 1);
    assert_eq!(chained.last(), Some(&0x1a));
    assert_eq!(job_bytes(&labels, 95, true, true).unwrap_err(), "unsupported tape width");
}

#[test]
fn label_files_are_asked_for() {
    let mut db = Db::new();
    db.create(5, "AA", None, "", "", "", "2026-01-01").unwrap();
    let env: Dict<String> = Dict::new();
    assert_eq!(get_label_png(&db, &env, 5).unwrap().ids, vec![5]);
    assert_eq!(get_label_png(&db, &env, 6).unwrap_err(), "No battery has id 6.");
    assert_eq!(png_name(5), "battery-005.png");
    assert_eq!(save_labels_pdf(&db, &env, &vec![]).unwrap_err(), "No battery ids were given.");
    let one = save_labels_pdf(&db, &env, &vec![5]).unwrap();
    assert_eq!((one.name.as_str(), one.layout), ("battery-005.pdf", PdfLayout::Pages));
    db.set_setting("pdf_layout", "grid", "2026-01-01").unwrap();
    let two = save_labels_pdf(&db, &env, &vec![5, 6]).unwrap();
    assert_eq!((two.name.as_str(), two.layout), ("labels.pdf", PdfLayout::Grid));
}

#[test]
fn zeros_in_front_of_an_id_do_not_matter() {
    for typed in ["7", "07", "007", " 0000007 "] {
        assert_eq!(decode_payload(typed), Ok(7));
    }
    assert_eq!(decode_payload("120"), decode_payload("0120"));
}

#[test]
fn a_payload_with_a_format_header_and_trailer_is_drawn() {
    for payload in ["[)>\u{1e}05\u{1d}AB", "[)>\u{1e}06\u{1d}1\u{1e}\u{4}", "[)>\u{1e}05\u{1d}\u{e9}"] {
        let raster = render_datamatrix(payload, 1).unwrap();
        assert!(raster.width > 0 && raster.width == raster.height);
    }
}
