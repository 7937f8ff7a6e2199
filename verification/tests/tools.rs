use jixel::amount::Amount;
use jixel::container::{
    check_container, declared_area, is_bare_codestream, worth_transcoding, ContainerFault,
    SIGNATURE,
};
use jixel::harness::{exact_size_pixels, read_request, PixelFormat};
use jixel::jpeg::{accept_decoded, builtin_jpeg, decode_reference, JpegFault, Picture};
use jixel::jpeg_frame::is_decodable_frame;
use jixel::metrics::{
    arith_mean, average, bounds, distances_found, geo_mean, parse_cvvdp_line, ppm_header,
    read_distance_line, request_line, take_distance_line, ChartPoint, DistanceScores, Sample,
    Score,
};
use jixel::series::{
    bits_per_pixel, cjxl_color, dist_note, distance_to_quality, image_extension,
    jpeg_quality_from_distance, jpeg_tool, plan_series, series_label, JpegTool, SeriesKind,
};
use jixel::numeral::reads_as_number;
use jixel::settings::{read_settings, SettingsFault};
use jixel::text::{
    decimal_text, equals_ignoring_case, parse_u32_list, parse_whole, shell_quote, split, trim,
    trim_pieces,
};

#[derive(Clone, Copy, Debug, PartialEq)]
struct F64(f64);

impl Amount for F64 {
    fn zero() -> Self {
        F64(0.0)
    }
    fn infinite() -> Self {
        F64(f64::INFINITY)
    }
    fn ratio(n: i64, d: u64) -> Self {
        F64((n as f64 / d as f64) as f64)
    }
    fn plus(self, other: Self) -> Self {
        F64(self.0 + other.0)
    }
    fn minus(self, other: Self) -> Self {
        F64(self.0 - other.0)
    }
    fn times(self, factor: Self) -> Self {
        F64(self.0 * factor.0)
    }
    fn fused(self, factor: Self, addend: Self) -> Self {
        F64(self.0.mul_add(factor.0, addend.0))
    }
    fn over(self, factor: Self) -> Self {
        F64(self.0 / factor.0)
    }
    fn lesser(self, other: Self) -> Self {
        F64(self.0.min(other.0))
    }
    fn greater(self, other: Self) -> Self {
        F64(self.0.max(other.0))
    }
    fn less(self, other: Self) -> bool {
        self.0 < other.0
    }
    fn at_most(self, other: Self) -> bool {
        self.0 <= other.0
    }
    fn finite(self) -> bool {
        self.0.is_finite()
    }
    fn root(self) -> Self {
        F64(self.0.sqrt())
    }
    fn exp2(self) -> Self {
        F64(self.0.exp2())
    }
    fn log2(self) -> Self {
        F64(self.0.log2())
    }
    fn exp(self) -> Self {
        F64(self.0.exp())
    }
    fn ln(self) -> Self {
        F64(self.0.ln())
    }
    fn log10(self) -> Self {
        F64(self.0.log10())
    }
    fn byte(self) -> u8 {
        self.0 as u8
    }
    fn nearest(self) -> Self {
        F64(self.0.round_ties_even())
    }
    fn toward_zero(self) -> Self {
        F64(self.0.trunc())
    }
    fn whole(self) -> i32 {
        self.0 as i32
    }
    fn bits(self) -> u32 {
        (self.0 as f32).to_bits()
    }
    fn from_bits(bits: u32) -> Self {
        F64(f32::from_bits(bits) as f64)
    }
}

fn strings(words: &[&str]) -> Vec<String> {
    words.iter().map(|w| w.to_string()).collect()
}

#[test]
fn texts_are_trimmed_and_cut() {
    assert_eq!(trim("  a b\t\n"), "a b");
    assert_eq!(trim(" \u{3000} "), "");
    assert_eq!(trim(""), "");
    assert_eq!(split("a,,b", ','), strings(&["a", "", "b"]));
    assert_eq!(split("", ','), strings(&[""]));
    assert_eq!(trim_pieces("0.5, 1 ,2"), strings(&["0.5", "1", "2"]));
}

#[test]
fn whole_numbers_are_read_within_their_range() {
    assert_eq!(parse_whole("42", 100), Some(42));
    assert_eq!(parse_whole("+7", 100), Some(7));
    assert_eq!(parse_whole("007", 100), Some(7));
    assert_eq!(parse_whole("101", 100), None);
    assert_eq!(parse_whole("", 100), None);
    assert_eq!(parse_whole("+", 100), None);
    assert_eq!(parse_whole("-1", 100), None);
    assert_eq!(parse_whole("1 ", 100), None);
    assert_eq!(parse_whole("18446744073709551615", u64::MAX), Some(u64::MAX));
    assert_eq!(parse_whole("18446744073709551616", u64::MAX), None);
    assert_eq!(parse_u32_list("7, 9"), Some(vec![7, 9]));
    assert_eq!(parse_u32_list("7,x"), None);
    assert_eq!(parse_u32_list("4294967296"), None);
}

#[test]
fn decimals_read_back() {
    for n in [0u64, 9, 10, 255, 1000, u64::MAX] {
        assert_eq!(decimal_text(n), n.to_string());
        assert_eq!(parse_whole(&decimal_text(n), u64::MAX), Some(n));
    }
}

#[test]
fn a_shell_reads_back_what_was_quoted() {
    for text in ["plain", "with space", "it's", "''", "a\\b'c\"d", ""] {
        let quoted = shell_quote(text);
        let mut word = String::new();
        let (mut inside, mut escaped) = (false, false);
        for c in quoted.chars() {
            if inside {
                if c == '\'' {
                    inside = false;
                } else {
                    word.push(c);
                }
            } else if escaped {
                word.push(c);
                escaped = false;
            } else if c == '\'' {
                inside = true;
            } else if c == '\\' {
                escaped = true;
            } else {
                word.push(c);
            }
        }
        assert!(!inside && !escaped);
        assert_eq!(word, text);
    }
    assert_eq!(shell_quote("it's"), "'it'\\''s'");
}

#[test]
fn case_is_ignored_for_ascii_letters_only() {
    assert!(equals_ignoring_case("PnG", "png"));
    assert!(!equals_ignoring_case("pn", "png"));
    assert!(!equals_ignoring_case("\u{C4}", "\u{E4}"));
    assert!(image_extension("JPEG"));
    assert!(image_extension("jpg"));
    assert!(!image_extension("jxl"));
}

#[test]
fn numerals_are_what_parses() {
    let words = [
        "", "+", "-", ".", "1", "+1", "-1", "+-1", "1.", ".5", "0.5", "1.5e", "1.5e3", "1.5E-3",
        "1e+", "1e+07", "e5", ".e5", "1..2", "inf", "-INF", "+Infinity", "infinit", "nan", "-NaN",
        "1_0", " 1", "1 ", "0x1", "1f", "\u{0661}", "1e5.0", "--1", "1e5e5",
    ];
    for w in words {
        assert_eq!(reads_as_number(w), w.parse::<f32>().is_ok(), "{w:?}");
    }
}

#[test]
fn settings_start_from_their_defaults() {
    let s = read_settings(&strings(&["folder"]), 6).ok().unwrap();
    assert_eq!(s.folder, Some("folder".to_string()));
    assert_eq!(s.distances, strings(&["0.5", "1", "2", "3"]));
    assert_eq!(s.efforts, vec![7, 9]);
    assert_eq!(s.threads, 6);
    assert_eq!(s.out, "meanstats_out");
    assert_eq!((s.avifenc.as_str(), s.avifdec.as_str()), ("avifenc", "avifdec"));
    assert_eq!((s.aom_speed.as_str(), s.avif_yuv.as_str()), ("6", "444"));
    assert!(s.with_cjxl && s.with_aom && s.with_butteraugli);
    assert!(!s.with_jpeg && !s.with_cvvdp && !s.patches);
    assert_eq!(s.cvvdp_display, "standard_4k");
}

#[test]
fn settings_take_every_option() {
    let s = read_settings(
        &strings(&[
            "-d", "1, 2.5", "--efforts", "3", "-t", "2", "--out", "o", "--avifenc", "e",
            "--avifdec", "d", "--aom-speed", "8", "--avif-yuv", "420", "--patches", "--no-cjxl",
            "--no-aom", "--jpeg", "--cjpegli", "j", "--cvvdp-bin", "c", "--cvvdp-display", "hd",
            "--cvvdp-device", "cpu", "--no-butteraugli", "--butteraugli-bin", "b", "in",
        ]),
        6,
    )
    .ok()
    .unwrap();
    assert_eq!(s.distances, strings(&["1", "2.5"]));
    assert_eq!((s.efforts, s.threads), (vec![3], 2));
    assert_eq!((s.out.as_str(), s.avifenc.as_str(), s.avifdec.as_str()), ("o", "e", "d"));
    assert_eq!((s.aom_speed.as_str(), s.avif_yuv.as_str()), ("8", "420"));
    assert!(s.patches && !s.with_cjxl && !s.with_aom && s.with_jpeg);
    assert_eq!(s.cjpegli, "j");
    // Naming a tool turns it on, whatever came before.
    assert!(s.with_cvvdp && s.with_butteraugli);
    assert_eq!(s.cvvdp_bin, Some("c".to_string()));
    assert_eq!((s.cvvdp_display.as_str(), s.butteraugli_bin.as_str()), ("hd", "b"));
    assert_eq!(s.cvvdp_device, Some("cpu".to_string()));
    assert_eq!(s.folder, Some("in".to_string()));
}

#[test]
fn settings_name_the_first_fault() {
    let fault = |words: &[&str]| read_settings(&strings(words), 1).err().unwrap();
    assert_eq!(fault(&[]), SettingsFault::NoFolder);
    assert_eq!(fault(&["a", "-h", "b"]), SettingsFault::Help);
    assert_eq!(fault(&["a", "--help"]), SettingsFault::Help);
    assert_eq!(fault(&["a", "b"]), SettingsFault::ExtraArgument { at: 1 });
    assert_eq!(fault(&["a", "--out"]), SettingsFault::MissingValue { at: 1 });
    assert_eq!(fault(&["-d", "x", "-d", "1", "a"]), SettingsFault::BadDistance { at: 1 });
    assert_eq!(fault(&["-d", "1,", "-h"]), SettingsFault::BadDistance { at: 1 });
    assert_eq!(fault(&["--efforts", "7,"]), SettingsFault::BadEffort { at: 1 });
    assert_eq!(fault(&["--threads", " 3"]), SettingsFault::BadThreads { at: 1 });
}

#[test]
fn series_follow_what_is_asked_for() {
    assert_eq!(jpeg_tool(true, true), JpegTool::Cjpegli);
    assert_eq!(jpeg_tool(false, true), JpegTool::Cjpeg);
    assert_eq!(jpeg_tool(false, false), JpegTool::Builtin);
    let plan = plan_series(&vec![7, 9], true, true, Some(JpegTool::Builtin));
    assert_eq!(
        plan,
        [
            SeriesKind::Jixel,
            SeriesKind::Cjxl(7),
            SeriesKind::Cjxl(9),
            SeriesKind::Aom,
            SeriesKind::Jpeg(JpegTool::Builtin),
        ]
    );
    assert_eq!(plan_series(&vec![7], false, false, None), [SeriesKind::Jixel]);
    let labels: Vec<String> = plan.iter().map(|&kind| series_label(kind)).collect();
    assert_eq!(
        labels,
        strings(&["jixel", "cjxl -e7", "cjxl -e9", "libavif aom (AV1)", "jpeg (image-rs)"])
    );
    assert_eq!(series_label(SeriesKind::Jpeg(JpegTool::Cjpegli)), "jpeg (cjpegli)");
    assert_eq!(series_label(SeriesKind::Jpeg(JpegTool::Cjpeg)), "jpeg (cjpeg -optimize)");
}

#[test]
fn shades_run_from_light_to_dark() {
    assert_eq!(cjxl_color::<F64>(0, 1), (0x6B, 0xAE, 0xD6));
    assert_eq!(cjxl_color::<F64>(0, 3), (0x6B, 0xAE, 0xD6));
    assert_eq!(cjxl_color::<F64>(1, 3), (58, 111, 161));
    assert_eq!(cjxl_color::<F64>(2, 3), (0x08, 0x30, 0x6B));
}

#[test]
fn qualities_correspond_to_distances() {
    for (d, q) in [(0.01, 100), (0.05, 100), (0.1, 99), (0.5, 93), (1.0, 90), (2.0, 79), (6.4, 30), (15.0, 8), (1000.0, 1)] {
        assert_eq!(jpeg_quality_from_distance(F64(d)), q, "d={d}");
    }
    for (d, q) in [(0.0, 100), (1.0, 90), (2.55, 75), (50.0, 1)] {
        assert_eq!(distance_to_quality(F64(d)), q, "d={d}");
    }
    assert_eq!(bits_per_pixel::<F64>(1000, 4000), F64(2.0));
}

#[test]
fn distances_are_noted_shortly() {
    assert_eq!(dist_note(Some(3), "3.00"), "-d 3");
    assert_eq!(dist_note(None, "0.50"), "-d 0.5");
    assert_eq!(dist_note(None, "1.25"), "-d 1.25");
    assert_eq!(dist_note(None, "2.00"), "-d 2");
}

#[test]
fn score_requests_quote_every_path() {
    assert_eq!(
        request_line(&strings(&["a.ppm", "b c.ppm"]), "r.ppm", "hd", &None),
        "--test 'a.ppm' 'b c.ppm' --ref 'r.ppm' --display 'hd' --quiet\n"
    );
    assert_eq!(
        request_line(&strings(&["a"]), "r", "hd", &Some("cpu".to_string())),
        "--test 'a' --ref 'r' --display 'hd' --device 'cpu' --quiet\n"
    );
}

#[test]
fn score_lines_hold_one_number() {
    assert_eq!(parse_cvvdp_line("8.1234"), Some("8.1234".to_string()));
    assert_eq!(parse_cvvdp_line("CVVDP = 8.1234 [JOD]"), Some("8.1234".to_string()));
    assert_eq!(parse_cvvdp_line("loss=3"), None);
    assert_eq!(parse_cvvdp_line(""), None);
    assert_eq!(parse_cvvdp_line("cvvdp="), None);
}

#[test]
fn distance_tool_answers_are_collected() {
    let mut s = DistanceScores { norm: None, max: None };
    for line in ["warning", " 2.5 ", "9.0", "3-norm: 1.25"] {
        let (tagged, text) = read_distance_line(line);
        s = take_distance_line(s, tagged, text.parse().ok().map(F64));
    }
    assert_eq!(distances_found(s), Some((F64(1.25), F64(2.5))));
    let empty: DistanceScores<F64> = DistanceScores { norm: None, max: Some(F64(1.0)) };
    assert_eq!(distances_found(empty), None);
}

fn sample(bpp: f64, cvvdp: Option<f64>) -> Sample<F64> {
    Sample {
        bpp: F64(bpp),
        ss2: F64(80.0),
        ba: None,
        ba_max: None,
        cvvdp: cvvdp.map(F64),
    }
}

#[test]
fn means_are_over_what_was_measured() {
    let samples = vec![sample(1.0, Some(9.0)), sample(4.0, None), sample(1.0, Some(8.0))];
    assert_eq!(average(&samples, Score::Rate), Some((F64(2.0), 3)));
    assert_eq!(average(&samples, Score::Ss2), Some((F64(80.0), 3)));
    assert_eq!(average(&samples, Score::Cvvdp), Some((F64(8.5), 2)));
    assert_eq!(average(&samples, Score::Butteraugli), None);
    assert_eq!(average(&samples, Score::ButteraugliMax), None);
    assert_eq!(arith_mean(&vec![F64(1.0), F64(2.0)]), F64(1.5));
    assert_eq!(geo_mean(&vec![F64(2.0), F64(8.0)]), Some(F64(4.0)));
    assert_eq!(geo_mean(&vec![F64(2.0), F64(0.0)]), None);
}

#[test]
fn charts_show_all_points_with_room() {
    let empty = bounds(&Vec::new(), F64(0.0), F64(100.0));
    assert_eq!((empty.xmin, empty.xmax, empty.ymin, empty.ymax), (F64(0.0), F64(1.0), F64(0.0), F64(100.0)));
    let points = vec![
        ChartPoint { x: F64(1.0), y: F64(90.0) },
        ChartPoint { x: F64(3.0), y: F64(99.0) },
    ];
    let b = bounds(&points, F64(0.0), F64(100.0));
    assert!((b.xmin.0 - 0.899999).abs() < 1e-9 && (b.xmax.0 - 3.100001).abs() < 1e-9);
    assert!((b.ymin.0 - 89.279999).abs() < 1e-9);
    // The scores stay within their range; the upper room is cut off here.
    let high = bounds(&points, F64(0.0), F64(99.5));
    assert_eq!(high.ymax, F64(99.5));
}

#[test]
fn pixmaps_begin_with_their_size() {
    assert_eq!(ppm_header(640, 480), "P6\n640 480\n255\n");
}

#[test]
fn pictures_survive_the_builtin_reference() {
    let (w, h) = (16u32, 8u32);
    let rgb: Vec<u8> = (0..w * h).flat_map(|_| [200u8, 100, 50]).collect();
    let file = builtin_jpeg(&rgb, w, h, F64(0.05)).ok().unwrap();
    assert_eq!(&file[..2], &[0xFF, 0xD8]);
    assert_ne!(file, rgb);
    assert_eq!(declared_area(&file), Some(128));
    assert!(worth_transcoding(&file));
    let decoded = decode_reference(&file, w, h).ok().unwrap();
    assert_eq!(decoded.len(), rgb.len());
    for (a, b) in decoded.iter().zip(&rgb) {
        assert!(a.abs_diff(*b) <= 3, "{a} for {b}");
    }
    // A coarser distance takes fewer bytes.
    let noise: Vec<u8> = (0..384u32).map(|i| (i.wrapping_mul(2_654_435_761) >> 24) as u8).collect();
    let fine = builtin_jpeg(&noise, w, h, F64(0.05)).ok().unwrap();
    let coarse = builtin_jpeg(&noise, w, h, F64(10.0)).ok().unwrap();
    assert!(coarse.len() < fine.len());
}

#[test]
fn jpeg_faults_are_told_apart() {
    assert_eq!(builtin_jpeg(&[], 0, 4, F64(1.0)), Err(JpegFault::Unencodable));
    assert_eq!(builtin_jpeg(&[], 4, 0, F64(1.0)), Err(JpegFault::Unencodable));
    assert_eq!(
        builtin_jpeg(&vec![0u8; 65536 * 3], 65536, 1, F64(1.0)),
        Err(JpegFault::Unencodable)
    );
    assert_eq!(decode_reference(b"no picture", 1, 1), Err(JpegFault::Undecodable));
    let file = builtin_jpeg(&[9u8; 12], 2, 2, F64(1.0)).ok().unwrap();
    assert_eq!(decode_reference(&file, 4, 1), Err(JpegFault::SizeMismatch));
    assert_eq!(accept_decoded(None, 1, 1), Err(JpegFault::Undecodable));
    let picture = Picture { width: 1, height: 1, pixels: vec![1, 2, 3] };
    assert_eq!(accept_decoded(Some(picture), 1, 1), Ok(vec![1, 2, 3]));
}

fn segment(code: u8, payload: &[u8]) -> Vec<u8> {
    let mut out = vec![0xff, code];
    out.extend_from_slice(&((2 + payload.len()) as u16).to_be_bytes());
    out.extend_from_slice(payload);
    out
}

/// A grey file of one scan, whose only DC code stands for `category`.
fn grey_file(frame: u8, width: u8, table: &[u8], category: u8, last: u8, data: &[u8]) -> Vec<u8> {
    let mut dc = vec![0x00, 1];
    dc.resize(17, 0);
    dc.push(category);
    let mut ac = vec![0x10, 1];
    ac.resize(18, 0);
    let mut out = vec![0xff, 0xd8];
    out.extend(segment(0xdb, table));
    out.extend(segment(frame, &[8, 0, 8, 0, width, 1, 1, 0x11, 0]));
    out.extend(segment(0xc4, &dc));
    out.extend(segment(0xc4, &ac));
    out.extend(segment(0xda, &[1, 1, 0x00, 0, last, 0]));
    out.extend_from_slice(data);
    out.extend_from_slice(&[0xff, 0xd9]);
    out
}

/// Bits as coded data: filled up with ones, and zeros stuffed in.
fn packed(bits: &str) -> Vec<u8> {
    let mut out = Vec::new();
    for byte in bits.as_bytes().chunks(8) {
        let ones = (0..8).map(|i| byte.get(i).map_or(1, |b| b - b'0'));
        let byte = ones.fold(0u8, |sum, b| 2 * sum + b);
        out.push(byte);
        if byte == 0xff {
            out.push(0);
        }
    }
    out
}

fn flat_table(wide: bool, step: u16) -> Vec<u8> {
    let mut out = vec![if wide { 0x10 } else { 0x00 }];
    for _ in 0..64 {
        if wide {
            out.extend_from_slice(&step.to_be_bytes());
        } else {
            out.push(step as u8);
        }
    }
    out
}

#[test]
fn files_are_tested_before_they_are_decoded() {
    let file = builtin_jpeg(&[9u8; 300], 10, 10, F64(1.0)).ok().unwrap();
    assert!(is_decodable_frame(&file));
    assert!(!is_decodable_frame(b"no picture"));
    assert!(!is_decodable_frame(&file[..100]));
    // Components behind the first one that are sampled more finely.
    let frame = file.windows(2).position(|m| m == [0xff, 0xc0]).unwrap();
    assert_eq!(file[frame + 9], 3);
    let mut turned = file.clone();
    turned[frame + 11] = 0x11;
    turned[frame + 14] = 0x22;
    turned[frame + 17] = 0x22;
    assert!(!is_decodable_frame(&turned));
    assert_eq!(decode_reference(&turned, 10, 10), Err(JpegFault::Undecodable));
    // A second frame, other factors, and a segment that is cut off.
    let mut twice = file[..frame].to_vec();
    twice.extend_from_slice(&file[frame..frame + 19]);
    twice.extend_from_slice(&file[frame..]);
    assert!(!is_decodable_frame(&twice));
    let mut fourfold = file.clone();
    fourfold[frame + 11] = 0x41;
    assert!(!is_decodable_frame(&fourfold));
    assert!(!is_decodable_frame(&file[..frame + 10]));
}

#[test]
fn sums_that_leave_the_range_are_refused() {
    // One block of the largest difference and quantizer still fits; two may not.
    let wide = flat_table(true, 65535);
    assert!(is_decodable_frame(&grey_file(0xc0, 8, &wide, 15, 63, &[0x7f])));
    let two = grey_file(0xc0, 16, &wide, 15, 63, &[0x7f]);
    assert!(!is_decodable_frame(&two));
    assert_eq!(decode_reference(&two, 16, 8), Err(JpegFault::Undecodable));
    assert!(is_decodable_frame(&grey_file(0xc0, 16, &flat_table(true, 32767), 15, 63, &[0x7f])));
    // What the data holds decides where the head leaves it open: up and down again.
    let half = "0100000000000000";
    let down = "0011111111111111";
    let most = "0111111111111111";
    let coded = |blocks: &[&str]| {
        let data = packed(&blocks.iter().map(|b| format!("{b}0")).collect::<String>());
        grey_file(0xc0, 16, &wide, 15, 63, &data)
    };
    assert!(is_decodable_frame(&coded(&[half, down])));
    assert!(is_decodable_frame(&coded(&[half, half])));
    assert!(!is_decodable_frame(&coded(&[most, most])));
    assert!(!is_decodable_frame(&coded(&[half])));
    let row: Vec<u8> = (0..48).map(|i| if i < 24 { 255 } else { 128 }).collect();
    assert_eq!(decode_reference(&coded(&[half, down]), 16, 8), Ok(row.repeat(8)));
    // Progressive files hold their sums in sixteen bits.
    assert!(is_decodable_frame(&grey_file(0xc2, 16, &wide, 15, 0, &[0x7f])));
}

#[test]
fn progressive_and_sequential_files_are_decoded() {
    let table = flat_table(false, 1);
    // No difference in either block: the middle grey.
    let grey = vec![128u8; 16 * 8 * 3];
    let file = grey_file(0xc2, 16, &table, 0, 0, &[0x3f]);
    assert_eq!(decode_reference(&file, 16, 8), Ok(grey.clone()));
    let file = grey_file(0xc0, 16, &table, 0, 63, &[0x0f]);
    assert_eq!(decode_reference(&file, 16, 8), Ok(grey));
    assert_eq!(decode_reference(&file, 8, 8), Err(JpegFault::SizeMismatch));
}

fn boxed(kind: &[u8; 4], payload: usize) -> Vec<u8> {
    let mut out = ((8 + payload) as u32).to_be_bytes().to_vec();
    out.extend_from_slice(kind);
    out.resize(8 + payload, 0);
    out
}

#[test]
fn containers_are_checked_box_by_box() {
    let with = |boxes: &[Vec<u8>]| {
        let mut out = SIGNATURE.to_vec();
        boxes.iter().for_each(|b| out.extend_from_slice(b));
        out
    };
    let good = with(&[boxed(b"ftyp", 12), boxed(b"jbrd", 5), boxed(b"jxlc", 9)]);
    assert_eq!(check_container(&good), Ok(()));
    let parts = with(&[boxed(b"jbrd", 0), boxed(b"jxlp", 1)]);
    assert_eq!(check_container(&parts), Ok(()));
    let mut large = vec![0, 0, 0, 1];
    large.extend_from_slice(b"jxlc");
    large.extend_from_slice(&20u64.to_be_bytes());
    large.extend_from_slice(&[0; 4]);
    assert_eq!(check_container(&with(&[boxed(b"jbrd", 0), large])), Ok(()));

    assert_eq!(check_container(&good[1..]), Err(ContainerFault::NoSignature));
    assert_eq!(
        check_container(&with(&[vec![0, 0, 0]])),
        Err(ContainerFault::HeaderPastEnd { pos: 12 })
    );
    assert_eq!(
        check_container(&with(&[vec![0, 0, 0, 1, 0, 0, 0, 0, 0]])),
        Err(ContainerFault::LargeHeaderTruncated { pos: 12 })
    );
    assert_eq!(
        check_container(&with(&[vec![0, 0, 0, 7, 0, 0, 0, 0]])),
        Err(ContainerFault::SizeBelowHeader { pos: 12, size: 7 })
    );
    assert_eq!(
        check_container(&with(&[vec![0, 0, 0, 9, 0, 0, 0, 0]])),
        Err(ContainerFault::Overrun { pos: 12, size: 9 })
    );
    assert_eq!(
        check_container(&with(&[boxed(b"jxlc", 0)])),
        Err(ContainerFault::NoReconstruction)
    );
    assert_eq!(
        check_container(&with(&[boxed(b"jbrd", 0)])),
        Err(ContainerFault::NoCodestream)
    );
    assert!(is_bare_codestream(&[0xFF, 0x0A, 0]));
    assert!(!is_bare_codestream(&[0xFF]));
}

#[test]
fn requests_are_made_from_any_bytes() {
    assert!(read_request(&[1, 2, 3]).is_none());
    let q = read_request(&[5, 130, 3, 0b1010_1101, 7, 8]).unwrap();
    assert_eq!(q.format, PixelFormat::Rgba);
    assert_eq!((q.width, q.height), (3, 4));
    assert_eq!(q.quality_step, 0b10101);
    assert!(q.lossless && !q.progressive && q.slow);
    assert_eq!(q.pixels.len(), 48);
    assert_eq!(&q.pixels[..4], &[7, 8, 7, 8]);
    assert_eq!(exact_size_pixels(&[], 3), [0, 0, 0]);
    assert!(worth_transcoding(&[0xFF, 0xD8, 0, 0]));
    assert!(!worth_transcoding(&[0xFF, 0xD8, 0]));
    let huge = [0xFF, 0xD8, 0xFF, 0xC0, 0, 17, 8, 0xFF, 0xFF, 0xFF, 0xFF, 3];
    assert_eq!(declared_area(&huge), Some(65535 * 65535));
    assert!(!worth_transcoding(&huge));
}
