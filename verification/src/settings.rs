//! What a measuring run over a folder of images is asked to do.

use crate::numeral::{is_numeral, reads_as_number};
use crate::text::{
    number_list, number_of, parse_u32_list, parse_whole, same_text, texts, trim_pieces,
    trimmed_pieces,
};
use vstd::prelude::*;

verus! {

/// An argument of the command line.
#[derive(Clone, Copy, Debug, PartialEq, Eq, Structural)]
pub enum ArgumentKind {
    Distances,
    Efforts,
    Threads,
    Out,
    Avifenc,
    Avifdec,
    AomSpeed,
    AvifYuv,
    Patches,
    NoCjxl,
    NoAom,
    Jpeg,
    Cjpegli,
    Cvvdp,
    NoCvvdp,
    CvvdpBin,
    CvvdpDisplay,
    CvvdpDevice,
    Butteraugli,
    NoButteraugli,
    ButteraugliBin,
    Help,
    /// Not an option: the folder.
    Other,
}

/// Why a command line is not accepted.
#[derive(Clone, Copy, Debug, PartialEq, Eq, Structural)]
pub enum SettingsFault {
    /// Help was asked for.
    Help,
    /// The option at `at` lacks its value.
    MissingValue { at: usize },
    /// The distances at `at` are not all numbers.
    BadDistance { at: usize },
    /// The efforts at `at` are not whole numbers.
    BadEffort { at: usize },
    /// The number of threads at `at` is none.
    BadThreads { at: usize },
    /// There is a second folder at `at`.
    ExtraArgument { at: usize },
    /// There is no folder.
    NoFolder,
}

/// What a run is asked to do.
pub struct Settings {
    /// Folder of the images.
    pub folder: Option<String>,
    /// Distances to encode at, as they were written.
    pub distances: Vec<String>,
    /// Efforts of the reference encoder.
    pub efforts: Vec<u32>,
    /// Where results go.
    pub out: String,
    /// Threads to encode with.
    pub threads: usize,
    /// Encoder of the AV1 reference.
    pub avifenc: String,
    /// Decoder of the AV1 reference.
    pub avifdec: String,
    /// Speed of the AV1 reference.
    pub aom_speed: String,
    /// Chroma layout of the AV1 reference.
    pub avif_yuv: String,
    /// Look for patches.
    pub patches: bool,
    /// Run the reference encoder.
    pub with_cjxl: bool,
    /// Run the AV1 reference.
    pub with_aom: bool,
    /// Run the JPEG reference.
    pub with_jpeg: bool,
    /// Preferred JPEG encoder.
    pub cjpegli: String,
    /// Score with ColorVideoVDP.
    pub with_cvvdp: bool,
    /// Where ColorVideoVDP is.
    pub cvvdp_bin: Option<String>,
    /// Score with butteraugli.
    pub with_butteraugli: bool,
    /// Where butteraugli is.
    pub butteraugli_bin: String,
    /// Display that ColorVideoVDP assumes.
    pub cvvdp_display: String,
    /// Device that ColorVideoVDP runs on.
    pub cvvdp_device: Option<String>,
}

/// What settings say.
pub struct SettingsView {
    pub folder: Option<Seq<char>>,
    pub distances: Seq<Seq<char>>,
    pub efforts: Seq<u32>,
    pub out: Seq<char>,
    pub threads: usize,
    pub avifenc: Seq<char>,
    pub avifdec: Seq<char>,
    pub aom_speed: Seq<char>,
    pub avif_yuv: Seq<char>,
    pub patches: bool,
    pub with_cjxl: bool,
    pub with_aom: bool,
    pub with_jpeg: bool,
    pub cjpegli: Seq<char>,
    pub with_cvvdp: bool,
    pub cvvdp_bin: Option<Seq<char>>,
    pub with_butteraugli: bool,
    pub butteraugli_bin: Seq<char>,
    pub cvvdp_display: Seq<char>,
    pub cvvdp_device: Option<Seq<char>>,
}

/// What an optional text says.
pub open spec fn shown(text: Option<String>) -> Option<Seq<char>> {
    match text {
        Some(t) => Some(t@),
        None => None,
    }
}

impl View for Settings {
    type V = SettingsView;

    open spec fn view(&self) -> SettingsView {
        SettingsView {
            folder: shown(self.folder),
            distances: texts(self.distances@),
            efforts: self.efforts@,
            out: self.out@,
            threads: self.threads,
            avifenc: self.avifenc@,
            avifdec: self.avifdec@,
            aom_speed: self.aom_speed@,
            avif_yuv: self.avif_yuv@,
            patches: self.patches,
            with_cjxl: self.with_cjxl,
            with_aom: self.with_aom,
            with_jpeg: self.with_jpeg,
            cjpegli: self.cjpegli@,
            with_cvvdp: self.with_cvvdp,
            cvvdp_bin: shown(self.cvvdp_bin),
            with_butteraugli: self.with_butteraugli,
            butteraugli_bin: self.butteraugli_bin@,
            cvvdp_display: self.cvvdp_display@,
            cvvdp_device: shown(self.cvvdp_device),
        }
    }
}

/// What an argument is.
pub open spec fn kind_of(word: Seq<char>) -> ArgumentKind {
    if word == "--distances"@ || word == "-d"@ {
        ArgumentKind::Distances
    } else if word == "--efforts"@ {
        ArgumentKind::Efforts
    } else if word == "--threads"@ || word == "-t"@ {
        ArgumentKind::Threads
    } else if word == "--out"@ {
        ArgumentKind::Out
    } else if word == "--avifenc"@ {
        ArgumentKind::Avifenc
    } else if word == "--avifdec"@ {
        ArgumentKind::Avifdec
    } else if word == "--aom-speed"@ {
        ArgumentKind::AomSpeed
    } else if word == "--avif-yuv"@ {
        ArgumentKind::AvifYuv
    } else if word == "--patches"@ {
        ArgumentKind::Patches
    } else if word == "--no-cjxl"@ {
        ArgumentKind::NoCjxl
    } else if word == "--no-aom"@ {
        ArgumentKind::NoAom
    } else if word == "--jpeg"@ {
        ArgumentKind::Jpeg
    } else if word == "--cjpegli"@ {
        ArgumentKind::Cjpegli
    } else if word == "--cvvdp"@ {
        ArgumentKind::Cvvdp
    } else if word == "--no-cvvdp"@ {
        ArgumentKind::NoCvvdp
    } else if word == "--cvvdp-bin"@ {
        ArgumentKind::CvvdpBin
    } else if word == "--cvvdp-display"@ {
        ArgumentKind::CvvdpDisplay
    } else if word == "--cvvdp-device"@ {
        ArgumentKind::CvvdpDevice
    } else if word == "--butteraugli"@ {
        ArgumentKind::Butteraugli
    } else if word == "--no-butteraugli"@ {
        ArgumentKind::NoButteraugli
    } else if word == "--butteraugli-bin"@ {
        ArgumentKind::ButteraugliBin
    } else if word == "-h"@ || word == "--help"@ {
        ArgumentKind::Help
    } else {
        ArgumentKind::Other
    }
}

/// Tells what an argument is.
pub fn argument_kind(word: &str) -> (r: ArgumentKind)
    ensures
        r == kind_of(word@),
{
    if same_text(word, "--distances") || same_text(word, "-d") {
        ArgumentKind::Distances
    } else if same_text(word, "--efforts") {
        ArgumentKind::Efforts
    } else if same_text(word, "--threads") || same_text(word, "-t") {
        ArgumentKind::Threads
    } else if same_text(word, "--out") {
        ArgumentKind::Out
    } else if same_text(word, "--avifenc") {
        ArgumentKind::Avifenc
    } else if same_text(word, "--avifdec") {
        ArgumentKind::Avifdec
    } else if same_text(word, "--aom-speed") {
        ArgumentKind::AomSpeed
    } else if same_text(word, "--avif-yuv") {
        ArgumentKind::AvifYuv
    } else if same_text(word, "--patches") {
        ArgumentKind::Patches
    } else if same_text(word, "--no-cjxl") {
        ArgumentKind::NoCjxl
    } else if same_text(word, "--no-aom") {
        ArgumentKind::NoAom
    } else if same_text(word, "--jpeg") {
        ArgumentKind::Jpeg
    } else if same_text(word, "--cjpegli") {
        ArgumentKind::Cjpegli
    } else if same_text(word, "--cvvdp") {
        ArgumentKind::Cvvdp
    } else if same_text(word, "--no-cvvdp") {
        ArgumentKind::NoCvvdp
    } else if same_text(word, "--cvvdp-bin") {
        ArgumentKind::CvvdpBin
    } else if same_text(word, "--cvvdp-display") {
        ArgumentKind::CvvdpDisplay
    } else if same_text(word, "--cvvdp-device") {
        ArgumentKind::CvvdpDevice
    } else if same_text(word, "--butteraugli") {
        ArgumentKind::Butteraugli
    } else if same_text(word, "--no-butteraugli") {
        ArgumentKind::NoButteraugli
    } else if same_text(word, "--butteraugli-bin") {
        ArgumentKind::ButteraugliBin
    } else if same_text(word, "-h") || same_text(word, "--help") {
        ArgumentKind::Help
    } else {
        ArgumentKind::Other
    }
}

/// Options that the next argument belongs to.
pub open spec fn takes_value(kind: ArgumentKind) -> bool {
    match kind {
        ArgumentKind::Distances
        | ArgumentKind::Efforts
        | ArgumentKind::Threads
        | ArgumentKind::Out
        | ArgumentKind::Avifenc
        | ArgumentKind::Avifdec
        | ArgumentKind::AomSpeed
        | ArgumentKind::AvifYuv
        | ArgumentKind::Cjpegli
        | ArgumentKind::CvvdpBin
        | ArgumentKind::CvvdpDisplay
        | ArgumentKind::CvvdpDevice
        | ArgumentKind::ButteraugliBin => true,
        _ => false,
    }
}

fn wants_value(kind: ArgumentKind) -> (r: bool)
    ensures
        r == takes_value(kind),
{
    match kind {
        ArgumentKind::Distances
        | ArgumentKind::Efforts
        | ArgumentKind::Threads
        | ArgumentKind::Out
        | ArgumentKind::Avifenc
        | ArgumentKind::Avifdec
        | ArgumentKind::AomSpeed
        | ArgumentKind::AvifYuv
        | ArgumentKind::Cjpegli
        | ArgumentKind::CvvdpBin
        | ArgumentKind::CvvdpDisplay
        | ArgumentKind::CvvdpDevice
        | ArgumentKind::ButteraugliBin => true,
        _ => false,
    }
}

/// Every piece reads as a number.
pub open spec fn all_numerals(pieces: Seq<Seq<char>>) -> bool {
    forall|i: int| 0 <= i < pieces.len() ==> is_numeral(#[trigger] pieces[i])
}

fn all_read_as_numbers(pieces: &Vec<String>) -> (r: bool)
    ensures
        r == all_numerals(texts(pieces@)),
{
    let mut i: usize = 0;
    while i < pieces.len()
        invariant
            i <= pieces@.len(),
            forall|k: int| 0 <= k < i ==> is_numeral(#[trigger] texts(pieces@)[k]),
        decreases pieces@.len() - i,
    {
        assert(texts(pieces@)[i as int] == pieces@[i as int]@);
        if !reads_as_number(pieces[i].as_str()) {
            return false;
        }
        i += 1;
    }
    true
}

/// Settings after an option with its value, which stands at `at`.
pub open spec fn with_value(s: SettingsView, kind: ArgumentKind, value: Seq<char>, at: int) -> Result<
    SettingsView,
    SettingsFault,
> {
    match kind {
        ArgumentKind::Distances => if all_numerals(trimmed_pieces(value)) {
            Ok(SettingsView { distances: trimmed_pieces(value), ..s })
        } else {
            Err(SettingsFault::BadDistance { at: at as usize })
        },
        ArgumentKind::Efforts => match number_list(value) {
            Some(list) => Ok(SettingsView { efforts: list, ..s }),
            None => Err(SettingsFault::BadEffort { at: at as usize }),
        },
        ArgumentKind::Threads => match number_of(value, usize::MAX as int) {
            Some(n) => Ok(SettingsView { threads: n as usize, ..s }),
            None => Err(SettingsFault::BadThreads { at: at as usize }),
        },
        ArgumentKind::Out => Ok(SettingsView { out: value, ..s }),
        ArgumentKind::Avifenc => Ok(SettingsView { avifenc: value, ..s }),
        ArgumentKind::Avifdec => Ok(SettingsView { avifdec: value, ..s }),
        ArgumentKind::AomSpeed => Ok(SettingsView { aom_speed: value, ..s }),
        ArgumentKind::AvifYuv => Ok(SettingsView { avif_yuv: value, ..s }),
        ArgumentKind::Cjpegli => Ok(SettingsView { cjpegli: value, ..s }),
        ArgumentKind::CvvdpDisplay => Ok(SettingsView { cvvdp_display: value, ..s }),
        ArgumentKind::CvvdpBin => Ok(
            SettingsView { cvvdp_bin: Some(value), with_cvvdp: true, ..s },
        ),
        ArgumentKind::CvvdpDevice => Ok(SettingsView { cvvdp_device: Some(value), ..s }),
        ArgumentKind::ButteraugliBin => Ok(
            SettingsView { butteraugli_bin: value, with_butteraugli: true, ..s },
        ),
        _ => Ok(s),
    }
}

/// Settings after an argument that stands for itself, at `at`.
pub open spec fn with_word(s: SettingsView, kind: ArgumentKind, word: Seq<char>, at: int) -> Result<
    SettingsView,
    SettingsFault,
> {
    match kind {
        ArgumentKind::Patches => Ok(SettingsView { patches: true, ..s }),
        ArgumentKind::NoCjxl => Ok(SettingsView { with_cjxl: false, ..s }),
        ArgumentKind::NoAom => Ok(SettingsView { with_aom: false, ..s }),
        ArgumentKind::Jpeg => Ok(SettingsView { with_jpeg: true, ..s }),
        ArgumentKind::Cvvdp => Ok(SettingsView { with_cvvdp: true, ..s }),
        ArgumentKind::NoCvvdp => Ok(SettingsView { with_cvvdp: false, ..s }),
        ArgumentKind::Butteraugli => Ok(SettingsView { with_butteraugli: true, ..s }),
        ArgumentKind::NoButteraugli => Ok(SettingsView { with_butteraugli: false, ..s }),
        ArgumentKind::Help => Err(SettingsFault::Help),
        _ => if s.folder is Some {
            Err(SettingsFault::ExtraArgument { at: at as usize })
        } else {
            Ok(SettingsView { folder: Some(word), ..s })
        },
    }
}

/// Settings after the arguments from `i` on, the first fault counting.
pub open spec fn settled(args: Seq<Seq<char>>, i: int, s: SettingsView) -> Result<
    SettingsView,
    SettingsFault,
>
    decreases args.len() - i,
{
    if i >= args.len() {
        if s.folder is Some {
            Ok(s)
        } else {
            Err(SettingsFault::NoFolder)
        }
    } else {
        let kind = kind_of(args[i]);
        if takes_value(kind) {
            if i + 1 >= args.len() {
                Err(SettingsFault::MissingValue { at: i as usize })
            } else {
                match with_value(s, kind, args[i + 1], i + 1) {
                    Err(fault) => Err(fault),
                    Ok(t) => settled(args, i + 2, t),
                }
            }
        } else {
            match with_word(s, kind, args[i], i) {
                Err(fault) => Err(fault),
                Ok(t) => settled(args, i + 1, t),
            }
        }
    }
}

/// Settings before any argument.
pub open spec fn initial_settings(threads: usize) -> SettingsView {
    SettingsView {
        folder: None,
        distances: seq!["0.5"@, "1"@, "2"@, "3"@],
        efforts: seq![7, 9],
        out: "meanstats_out"@,
        threads,
        avifenc: "avifenc"@,
        avifdec: "avifdec"@,
        aom_speed: "6"@,
        avif_yuv: "444"@,
        patches: false,
        with_cjxl: true,
        with_aom: true,
        with_jpeg: false,
        cjpegli: "cjpegli"@,
        with_cvvdp: false,
        cvvdp_bin: None,
        with_butteraugli: true,
        butteraugli_bin: "butteraugli_main"@,
        cvvdp_display: "standard_4k"@,
        cvvdp_device: None,
    }
}

fn first_settings(threads: usize) -> (r: Settings)
    ensures
        r@ == initial_settings(threads),
{
    let mut distances: Vec<String> = Vec::new();
    distances.push("0.5".to_owned());
    distances.push("1".to_owned());
    distances.push("2".to_owned());
    distances.push("3".to_owned());
    let mut efforts: Vec<u32> = Vec::new();
    efforts.push(7);
    efforts.push(9);
    assert(texts(distances@) =~= seq!["0.5"@, "1"@, "2"@, "3"@]);
    assert(efforts@ =~= seq![7, 9]);
    Settings {
        folder: None,
        distances,
        efforts,
        out: "meanstats_out".to_owned(),
        threads,
        avifenc: "avifenc".to_owned(),
        avifdec: "avifdec".to_owned(),
        aom_speed: "6".to_owned(),
        avif_yuv: "444".to_owned(),
        patches: false,
        with_cjxl: true,
        with_aom: true,
        with_jpeg: false,
        cjpegli: "cjpegli".to_owned(),
        with_cvvdp: false,
        cvvdp_bin: None,
        with_butteraugli: true,
        butteraugli_bin: "butteraugli_main".to_owned(),
        cvvdp_display: "standard_4k".to_owned(),
        cvvdp_device: None,
    }
}

fn take_value(s: Settings, kind: ArgumentKind, value: &String, at: usize) -> (r: Result<
    Settings,
    SettingsFault,
>)
    ensures
        match r {
            Ok(t) => with_value(s@, kind, value@, at as int) == Ok::<SettingsView, SettingsFault>(
                t@,
            ),
            Err(f) => with_value(s@, kind, value@, at as int) == Err::<SettingsView, SettingsFault>(
                f,
            ),
        },
{
    let mut t: Settings = s;
    match kind {
        ArgumentKind::Distances => {
            let pieces: Vec<String> = trim_pieces(value.as_str());
            if !all_read_as_numbers(&pieces) {
                return Err(SettingsFault::BadDistance { at });
            }
            t.distances = pieces;
        },
        ArgumentKind::Efforts => match parse_u32_list(value.as_str()) {
            Some(list) => {
                t.efforts = list;
            },
            None => {
                return Err(SettingsFault::BadEffort { at });
            },
        },
        ArgumentKind::Threads => match parse_whole(value.as_str(), usize::MAX as u64) {
            Some(n) => {
                t.threads = n as usize;
            },
            None => {
                return Err(SettingsFault::BadThreads { at });
            },
        },
        ArgumentKind::Out => {
            t.out = value.clone();
        },
        ArgumentKind::Avifenc => {
            t.avifenc = value.clone();
        },
        ArgumentKind::Avifdec => {
            t.avifdec = value.clone();
        },
        ArgumentKind::AomSpeed => {
            t.aom_speed = value.clone();
        },
        ArgumentKind::AvifYuv => {
            t.avif_yuv = value.clone();
        },
        ArgumentKind::Cjpegli => {
            t.cjpegli = value.clone();
        },
        ArgumentKind::CvvdpDisplay => {
            t.cvvdp_display = value.clone();
        },
        ArgumentKind::CvvdpBin => {
            t.cvvdp_bin = Some(value.clone());
            t.with_cvvdp = true;
        },
        ArgumentKind::CvvdpDevice => {
            t.cvvdp_device = Some(value.clone());
        },
        ArgumentKind::ButteraugliBin => {
            t.butteraugli_bin = value.clone();
            t.with_butteraugli = true;
        },
        _ => {},
    }
    Ok(t)
}

fn take_word(s: Settings, kind: ArgumentKind, word: &String, at: usize) -> (r: Result<
    Settings,
    SettingsFault,
>)
    ensures
        match r {
            Ok(t) => with_word(s@, kind, word@, at as int) == Ok::<SettingsView, SettingsFault>(t@),
            Err(f) => with_word(s@, kind, word@, at as int) == Err::<SettingsView, SettingsFault>(
                f,
            ),
        },
{
    let mut t: Settings = s;
    match kind {
        ArgumentKind::Patches => {
            t.patches = true;
        },
        ArgumentKind::NoCjxl => {
            t.with_cjxl = false;
        },
        ArgumentKind::NoAom => {
            t.with_aom = false;
        },
        ArgumentKind::Jpeg => {
            t.with_jpeg = true;
        },
        ArgumentKind::Cvvdp => {
            t.with_cvvdp = true;
        },
        ArgumentKind::NoCvvdp => {
            t.with_cvvdp = false;
        },
        ArgumentKind::Butteraugli => {
            t.with_butteraugli = true;
        },
        ArgumentKind::NoButteraugli => {
            t.with_butteraugli = false;
        },
        ArgumentKind::Help => {
            return Err(SettingsFault::Help);
        },
        _ => {
            if t.folder.is_some() {
                return Err(SettingsFault::ExtraArgument { at });
            }
            t.folder = Some(word.clone());
        },
    }
    Ok(t)
}

/// Reads a command line; `threads` is how many are used if it does not say.
pub fn read_settings(args: &Vec<String>, threads: usize) -> (r: Result<Settings, SettingsFault>)
    ensures
        match r {
            Ok(s) => settled(texts(args@), 0, initial_settings(threads)) == Ok::<
                SettingsView,
                SettingsFault,
            >(s@),
            Err(f) => settled(texts(args@), 0, initial_settings(threads)) == Err::<
                SettingsView,
                SettingsFault,
            >(f),
        },
{
    let ghost words = texts(args@);
    let ghost want = settled(words, 0, initial_settings(threads));
    let mut s: Settings = first_settings(threads);
    let mut i: usize = 0;
    while i < args.len()
        invariant
            i <= args@.len(),
            words == texts(args@),
            want == settled(words, 0, initial_settings(threads)),
            want == settled(words, i as int, s@),
        decreases args@.len() - i,
    {
        assert(words[i as int] == args@[i as int]@);
        let kind: ArgumentKind = argument_kind(args[i].as_str());
        if wants_value(kind) {
            if args.len() - i < 2 {
                return Err(SettingsFault::MissingValue { at: i });
            }
            assert(words[i + 1] == args@[i + 1]@);
            match take_value(s, kind, &args[i + 1], i + 1) {
                Ok(t) => {
                    s = t;
                },
                Err(f) => {
                    return Err(f);
                },
            }
            i += 2;
        } else {
            match take_word(s, kind, &args[i], i) {
                Ok(t) => {
                    s = t;
                },
                Err(f) => {
                    return Err(f);
                },
            }
            i += 1;
        }
    }
    if s.folder.is_none() {
        return Err(SettingsFault::NoFolder);
    }
    Ok(s)
}

} // verus!
