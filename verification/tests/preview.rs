//! Pictures in a terminal: cells, graphics protocols and the encoder's slot.

use std::sync::Arc;

use davimci::model::Resolution;
use davimci::present::fit::letterbox;
use davimci::present::overlay::Overlay;
use davimci::present::pacing::Pace;
use davimci::present::presenter::Presentation;
use davimci::tui::base64::base64;
use davimci::tui::encoder::Slot;
use davimci::tui::image::Image;
use davimci::tui::palette::{bucket, quantise, BINS, MAX_COLOURS};
use davimci::tui::preview::{
    detect, downsample, encode, half_blocks, kitty, measured_cell, natural_rows, paint, suggest,
    text_holds, Band, Cell, Height, Layout, Protocol, KITTY_CHUNK,
};
use davimci::tui::probe::{find, protocol_from_reply, reply_is_whole};
use davimci::tui::sixel::{run_length, sixel};
use davimci::tui::style::Color;

fn presentation(width: u32, height: u32, fill: [u8; 4]) -> Presentation {
    let surface = Resolution { width, height };
    let mut pixels = Vec::with_capacity((width * height * 4) as usize);
    for _ in 0..width * height {
        pixels.extend_from_slice(&fill);
    }
    Presentation {
        video: None,
        surface,
        pixels: Arc::new(pixels),
        pixels_id: 1,
        quad: letterbox(surface, surface),
        position: None,
        overlay: Overlay::default(),
        pace: Pace::Empty,
    }
}

fn layout(protocol: Protocol, columns: u16, rows: u16) -> Layout {
    Layout {
        columns,
        rows,
        protocol,
        cell: Cell::default(),
    }
}

#[test]
fn a_wide_frame_letterboxes_into_the_band_rather_than_stretching() {
    let pres = presentation(1920, 1080, [255, 255, 255, 255]);
    let l = layout(Protocol::Blocks, 40, 12);
    let image = downsample(&pres, l.pixels());
    assert_eq!((image.width, image.height), (40, 24));
    // 16:9 into 40x24 pins the width and leaves bars top and bottom.
    let quad = letterbox(pres.surface, l.pixels());
    assert_eq!((quad.width, quad.height), (40, 22));
    assert_eq!(quad.y, 1);
    assert_eq!(image.pixel(0, 0), [0, 0, 0], "no bar at the top");
    assert_eq!(image.pixel(0, 12), [255, 255, 255]);
    assert_eq!(image.pixel(0, 23), [0, 0, 0], "no bar at the bottom");
}

#[test]
fn half_blocks_encode_two_pixel_rows_per_cell() {
    let image = Image {
        width: 2,
        height: 2,
        rgb: vec![1, 2, 3, 4, 5, 6, 7, 8, 9, 10, 11, 12],
    };
    let lines = half_blocks(&image, layout(Protocol::Blocks, 2, 1));
    assert_eq!(lines.len(), 1);
    let spans = &lines[0];
    assert_eq!(spans.len(), 2, "two colours means two spans");
    assert_eq!(spans[0].text, "\u{2580}");
    assert_eq!(spans[0].style.fg, Some(Color::Rgb(1, 2, 3)));
    assert_eq!(spans[0].style.bg, Some(Color::Rgb(7, 8, 9)));
    assert_eq!(spans[1].style.fg, Some(Color::Rgb(4, 5, 6)));
    assert_eq!(spans[1].style.bg, Some(Color::Rgb(10, 11, 12)));
}

#[test]
fn kitty_transmits_rgb_at_the_cursor() {
    let image = Image {
        width: 2,
        height: 1,
        rgb: vec![255, 0, 0, 0, 0, 255],
    };
    let bytes = kitty(&image, layout(Protocol::Kitty, 2, 1));
    assert_eq!(
        String::from_utf8_lossy(&bytes),
        "\x1b_Ga=d,d=A\x1b\\\x1b_Ga=T,f=24,s=2,v=1,c=2,r=1,q=2,m=0;/wAAAAD/\x1b\\"
    );
}

#[test]
fn a_long_kitty_payload_is_chunked() {
    let image = Image {
        width: 4096,
        height: 1,
        rgb: vec![0; 4096 * 3],
    };
    let bytes = kitty(&image, layout(Protocol::Kitty, 8, 1));
    let text = String::from_utf8_lossy(&bytes);
    assert!(text.contains("m=1;"), "first chunk must ask for more");
    assert!(text.ends_with("\x1b\\"));
    assert_eq!(
        text.matches("\x1b_G").count(),
        1 + 4,
        "delete plus 4 chunks"
    );
    assert!(text.contains("\x1b_Gm=0;"), "last chunk must close");
    assert_eq!(KITTY_CHUNK, 4096);
}

#[test]
fn sixel_writes_one_band_per_six_pixel_rows() {
    let image = Image {
        width: 1,
        height: 2,
        rgb: vec![255, 0, 0, 255, 0, 0],
    };
    let bytes = sixel(&image);
    assert_eq!(
        String::from_utf8_lossy(&bytes),
        "\x1bPq\"1;1;1;2#0;2;100;0;0#0B-\x1b\\"
    );
}

#[test]
fn flat_runs_collapse_to_the_repeat_form() {
    let image = Image {
        width: 10,
        height: 1,
        rgb: [17u8, 34, 51].repeat(10),
    };
    assert_eq!(
        String::from_utf8_lossy(&sixel(&image)),
        "\x1bPq\"1;1;10;1#0;2;7;13;20#0!10@-\x1b\\"
    );

    // Four or fewer is written plainly, since `!4@` is no shorter.
    let mut out = Vec::new();
    run_length(&[1, 1, 1, 1, 2, 2, 2, 2, 2, 2], &mut out);
    assert_eq!(String::from_utf8_lossy(&out), "@@@@!6A");

    let mut out = Vec::new();
    run_length(&[3, 3], &mut out);
    assert_eq!(String::from_utf8_lossy(&out), "BB");
}

#[test]
fn a_tall_picture_is_many_bands() {
    let image = Image {
        width: 2,
        height: 13,
        rgb: vec![200; 2 * 13 * 3],
    };
    let bytes = sixel(&image);
    let text = String::from_utf8_lossy(&bytes);
    assert_eq!(text.matches('-').count(), 3, "{text}");
}

#[test]
fn a_frame_of_few_colours_is_quantised_exactly() {
    let colours = [[13u8, 200, 47], [201, 4, 99], [7, 7, 7]];
    let mut rgb = Vec::new();
    for c in &colours {
        rgb.extend_from_slice(c);
    }
    let image = Image {
        width: 3,
        height: 1,
        rgb,
    };
    let (palette, index_of) = quantise(&image);
    assert_eq!(palette.len(), 3);
    for c in &colours {
        let entry = palette[usize::from(index_of[bucket(*c)])];
        assert_eq!(entry, *c, "{c:?} came back as {entry:?}");
    }
}

#[test]
fn a_gradient_stays_close_to_the_colours_it_was_given() {
    let mut rgb = Vec::new();
    for i in 0..1024u32 {
        let v = (i * 255 / 1023) as u8;
        rgb.extend_from_slice(&[v, v / 2, 255 - v]);
    }
    let image = Image {
        width: 1024,
        height: 1,
        rgb,
    };
    let (palette, index_of) = quantise(&image);
    let mut worst = 0i32;
    for i in 0..1024u32 {
        let v = (i * 255 / 1023) as u8;
        let want = [v, v / 2, 255 - v];
        let got = palette[usize::from(index_of[bucket(want)])];
        for c in 0..3 {
            worst = worst.max((i32::from(got[c]) - i32::from(want[c])).abs());
        }
    }
    assert!(worst <= 4, "a gradient pixel was out by {worst} levels");
}

#[test]
fn a_frame_of_many_colours_fills_the_palette_and_no_more() {
    let mut rgb = Vec::new();
    for i in 0..4096u32 {
        rgb.extend_from_slice(&[
            (i * 37 % 256) as u8,
            (i * 91 % 256) as u8,
            (i * 151 % 256) as u8,
        ]);
    }
    let image = Image {
        width: 4096,
        height: 1,
        rgb,
    };
    let (palette, index_of) = quantise(&image);
    assert_eq!(palette.len(), MAX_COLOURS);
    assert!(index_of.iter().all(|i| usize::from(*i) < palette.len()));
    assert_eq!(index_of.len(), BINS);
}

#[test]
fn base64_pads_a_short_tail() {
    assert_eq!(base64(b"a"), "YQ==");
    assert_eq!(base64(b"ab"), "YWI=");
    assert_eq!(base64(b"abc"), "YWJj");
}

#[test]
fn base64_spells_every_symbol() {
    assert_eq!(base64(&[]), "");
    assert_eq!(base64(&[0xfb, 0xff, 0x3e]), "+/8+");
    assert_eq!(base64(&[0, 16, 131, 16, 81, 135]), "ABCDEFGH");
}

#[test]
fn a_slow_encoder_never_blocks_the_caller() {
    let mut slot = Slot::new();
    let l = layout(Protocol::Blocks, 8, 4);
    let mut first = presentation(16, 16, [1, 2, 3, 255]);
    first.pixels_id = 0;
    assert!(slot.submit(first, l));
    let job = slot.next_job().expect("the encoder takes the first frame");
    // A loop that submits every "tick" keeps spinning while the encoder is
    // still on the first frame.
    let mut iterations = 1;
    while iterations <= 200 {
        let mut pres = presentation(16, 16, [1, 2, 3, 255]);
        pres.pixels_id = iterations;
        assert!(slot.submit(pres, l));
        assert!(slot.take().is_none());
        iterations += 1;
    }
    assert!(iterations > 100);
    slot.finish(paint(&job.picture, job.layout));
    assert_eq!(slot.take().map(|b| b.pixels_id), Some(0));
}

#[test]
fn frames_are_dropped_rather_than_queued() {
    let mut slot = Slot::new();
    let l = layout(Protocol::Blocks, 8, 4);
    let mut seen = Vec::new();
    for id in 0..5 {
        let mut pres = presentation(16, 16, [0, 0, 0, 255]);
        pres.pixels_id = id;
        slot.submit(pres, l);
    }
    while let Some(job) = slot.next_job() {
        slot.finish(paint(&job.picture, job.layout));
        if let Some(band) = slot.take() {
            seen.push(band.pixels_id);
        }
    }
    assert!(
        seen.len() < 5,
        "every submitted frame was encoded: {seen:?}"
    );
    assert_eq!(
        seen.last(),
        Some(&4),
        "the newest frame must be the one kept"
    );
    assert!(!slot.is_stopped());
    slot.stop();
    assert!(slot.is_stopped());
}

#[test]
fn a_repeated_frame_is_not_re_encoded() {
    let mut slot = Slot::new();
    let l = layout(Protocol::Blocks, 8, 4);
    assert!(slot.wants(1, l));
    assert!(slot.submit(presentation(16, 16, [9, 9, 9, 255]), l));
    let job = slot.next_job().unwrap();
    slot.finish(paint(&job.picture, job.layout));
    assert!(slot.take().is_some());
    assert!(!slot.wants(1, l));
    assert!(!slot.submit(presentation(16, 16, [9, 9, 9, 255]), l));
    assert!(slot.next_job().is_none());
    assert!(slot.take().is_none());
}

#[test]
fn the_detected_protocol_is_overridable_by_name() {
    assert_eq!(Protocol::parse("kitty"), Some(Protocol::Kitty));
    assert_eq!(Protocol::parse("sixel"), Some(Protocol::Sixel));
    assert_eq!(Protocol::parse("blocks"), Some(Protocol::Blocks));
    assert_eq!(Protocol::parse("auto"), None);
}

#[test]
fn a_protocol_is_named_as_it_is_parsed() {
    for p in [Protocol::Kitty, Protocol::Sixel, Protocol::Blocks] {
        assert_eq!(Protocol::parse(&p.name()), Some(p));
    }
}

#[test]
fn a_zero_row_band_encodes_nothing() {
    let pres = presentation(16, 16, [0, 0, 0, 255]);
    assert!(paint(&pres, layout(Protocol::Kitty, 40, 0)).is_empty());
    assert!(paint(&pres, layout(Protocol::Blocks, 0, 4)).is_empty());
    assert!(Band::default().is_empty());
}

#[test]
fn a_band_is_cells_or_an_escape() {
    let pres = presentation(16, 16, [10, 20, 30, 255]);
    let blocks = paint(&pres, layout(Protocol::Blocks, 8, 4));
    assert_eq!((blocks.rows, blocks.pixels_id), (4, 1));
    assert_eq!(blocks.cells.len(), 4);
    assert!(blocks.escape.is_none());
    let escape = paint(&pres, layout(Protocol::Sixel, 8, 4));
    assert!(escape.cells.is_empty());
    assert!(escape.escape.is_some_and(|b| b.starts_with(b"\x1bPq")));
    let image = downsample(&pres, layout(Protocol::Kitty, 8, 4).pixels());
    let band = encode(&image, layout(Protocol::Kitty, 8, 4));
    assert!(band.escape.is_some_and(|b| b.starts_with(b"\x1b_G")));
}

#[test]
fn an_environment_suggests_its_protocol() {
    assert_eq!(suggest("1", "xterm", ""), Protocol::Kitty);
    assert_eq!(suggest("", "xterm-kitty", ""), Protocol::Kitty);
    assert_eq!(suggest("", "foot", ""), Protocol::Sixel);
    assert_eq!(suggest("", "xterm-256color", ""), Protocol::Blocks);
    // The case of the environment's words does not matter.
    assert_eq!(detect("", "XTERM-KITTY", ""), detect("", "xterm-kitty", ""));
    assert_eq!(detect("", "", "WezTerm"), detect("", "", "wezterm"));
    assert!(text_holds("xterm-kitty", "kitty"));
    assert!(!text_holds("xterm", "kitty"));
}

#[test]
fn a_cell_is_measured_or_assumed() {
    let assumed = Cell::default();
    assert_eq!((assumed.width, assumed.height), (10, 20));
    let measured = measured_cell(80, 24, 640, 384);
    assert_eq!((measured.width, measured.height), (8, 16));
    assert_eq!(measured_cell(0, 0, 640, 384), Cell::default());
    assert_eq!(measured_cell(80, 24, 0, 0), Cell::default());
    // A block is one pixel wide and two high, whatever the terminal measures.
    let block = Protocol::Blocks.cell(measured);
    assert_eq!((block.width, block.height), (1, 2));
    assert_eq!(Protocol::Sixel.cell(measured), measured);
}

#[test]
fn a_band_leaves_the_timeline_its_rows() {
    assert_eq!(Height::Off.rows(40, 20), 0);
    assert_eq!(Height::Rows(12).rows(40, 20), 12);
    assert_eq!(Height::Rows(100).rows(40, 20), 30);
    assert_eq!(Height::Percent(50).rows(40, 20), 20);
    assert_eq!(Height::Percent(200).rows(40_000, 20), 30_000);
    assert_eq!(Height::Auto.rows(40, 20), 20);
    let natural = natural_rows(
        80,
        Protocol::Blocks,
        Cell::default(),
        Resolution {
            width: 1920,
            height: 1080,
        },
    );
    assert_eq!(natural, 23);
}

#[test]
fn a_probe_reply_names_the_protocol_it_proves() {
    // kitty answers the graphics probe and the attributes request both.
    assert_eq!(
        protocol_from_reply("\x1b_Gi=31;OK\x1b\\\x1b[?62;c"),
        Some(Protocol::Kitty)
    );
    // A sixel terminal ignores the probe and lists 4 in its attributes.
    assert_eq!(
        protocol_from_reply("\x1b[?62;4;6;9;22c"),
        Some(Protocol::Sixel)
    );
    // Neither: the caller keeps what the environment suggested.
    assert_eq!(protocol_from_reply("\x1b[?62;22c"), None);
    // A number containing 4 is not the number 4.
    assert_eq!(protocol_from_reply("\x1b[?64;41c"), None);
    // Nothing recognisable at all, rather than a panic.
    assert_eq!(protocol_from_reply(""), None);
}

#[test]
fn a_reply_is_whole_once_it_is_closed() {
    assert!(!reply_is_whole(b""));
    assert!(!reply_is_whole(b"\x1b[?62;4"));
    assert!(reply_is_whole(b"\x1b[?62;4c"));
    assert_eq!(find(b"abcabc", b"ca"), Some(2));
    assert_eq!(find(b"abc", b"x"), None);
}

/// The columns that a terminal draws for a row of sixels.
fn columns_of(bytes: &[u8]) -> Vec<u8> {
    let mut out = Vec::new();
    let mut count: Option<usize> = None;
    for b in bytes {
        match (*b, count) {
            (b'!', _) => count = Some(0),
            (b'0'..=b'9', Some(n)) => count = Some(n * 10 + usize::from(b - b'0')),
            (column, n) => {
                out.extend(std::iter::repeat_n(column - 63, n.unwrap_or(1)));
                count = None;
            }
        }
    }
    out
}

#[test]
fn a_written_row_reads_back() {
    let mut row = vec![0, 0, 63, 1];
    row.extend([5; 123]);
    row.extend([7; 4]);
    row.push(0);
    let mut out = Vec::new();
    run_length(&row, &mut out);
    assert_eq!(String::from_utf8_lossy(&out), "??~@!123DFFFF?");
    assert_eq!(columns_of(&out), row);
}

#[test]
fn a_pixel_has_one_colour_of_its_band() {
    let image = Image {
        width: 2,
        height: 2,
        rgb: vec![255, 0, 0, 0, 0, 255, 0, 0, 255, 255, 0, 0],
    };
    let bytes = sixel(&image);
    let text = String::from_utf8_lossy(&bytes);
    let end = text.find('-').unwrap();
    let band = &text[text[..end].rfind("#0").unwrap()..end];
    let rows: Vec<Vec<u8>> = band
        .split('$')
        .map(|row| columns_of(&row.as_bytes()[2..]))
        .collect();
    assert_eq!(rows.len(), 2);
    for x in 0..2 {
        assert_eq!(rows[0][x] ^ rows[1][x], 3, "{text}");
        assert_eq!(rows[0][x] & rows[1][x], 0, "{text}");
    }
}

#[test]
fn a_pixel_beyond_the_buffer_is_black() {
    let mut pres = presentation(2, 2, [9, 9, 9, 9]);
    assert_eq!(pres.pixel(1, 1), [9, 9, 9, 9]);
    pres.pixels = Arc::new(vec![9; 12]);
    assert_eq!(pres.pixel(0, 1), [9, 9, 9, 9]);
    assert_eq!(pres.pixel(1, 1), [0, 0, 0, 255]);
    assert_eq!(pres.pixel(2, 0), [0, 0, 0, 255]);
}

/// Every pixel that a stream of sixels paints, with its register.
fn painted(bytes: &[u8]) -> Vec<(usize, usize, usize)> {
    let text = String::from_utf8_lossy(bytes).into_owned();
    let body = text
        .strip_prefix("\u{1b}Pq")
        .and_then(|t| t.strip_suffix("\u{1b}\\"))
        .unwrap();
    let (mut x, mut band, mut register) = (0, 0, 0);
    let mut out = Vec::new();
    let mut rest = body.chars().peekable();
    let mut repeat = 1;
    while let Some(c) = rest.next() {
        match c {
            '#' | '!' | '"' => {
                let mut numbers = vec![0usize];
                while let Some(d) = rest.peek().copied() {
                    match d.to_digit(10) {
                        Some(v) => {
                            let last = numbers.last_mut().unwrap();
                            *last = *last * 10 + v as usize;
                        }
                        None if d == ';' => numbers.push(0),
                        None => break,
                    }
                    rest.next();
                }
                match c {
                    '#' => register = numbers[0],
                    '!' => repeat = numbers[0],
                    _ => assert_eq!(numbers[..2], [1, 1]),
                }
            }
            '$' => x = 0,
            '-' => {
                x = 0;
                band += 1;
            }
            _ => {
                let bits = c as usize - 63;
                for _ in 0..repeat {
                    for d in 0..6 {
                        if bits >> d & 1 == 1 {
                            out.push((x, band * 6 + d, register));
                        }
                    }
                    x += 1;
                }
                repeat = 1;
            }
        }
    }
    out
}

#[test]
fn a_picture_is_painted_pixel_by_pixel() {
    let (width, height) = (9u32, 14u32);
    let mut rgb = Vec::new();
    for y in 0..height {
        for x in 0..width {
            let c = if x < 6 && y < 8 { 200 } else { 10 };
            rgb.extend([c, (x * 20) as u8 / 80 * 80, 40]);
        }
    }
    let image = Image { width, height, rgb };
    let (_, index_of) = quantise(&image);
    let mut seen = painted(&sixel(&image));
    assert_eq!(seen.len(), (width * height) as usize);
    seen.sort_unstable();
    let mut k = 0;
    for x in 0..width {
        for y in 0..height {
            let register = usize::from(index_of[bucket(image.pixel(x, y))]);
            assert_eq!(seen[k], (x as usize, y as usize, register));
            k += 1;
        }
    }
}
