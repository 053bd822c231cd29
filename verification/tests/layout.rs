use bare_rt::args::{run_with_args, ArgIter};
use bare_rt::layout::{decode_layout, LayoutDecoder, LayoutFault};

#[test]
fn decode_layout_reads_both_tables() {
    let image = [2, 0x7000, 0x7010, 0, 0x7100, 0x7110, 0x7120, 0];
    let layout = decode_layout(&image).unwrap();
    assert_eq!(layout.argv, vec![0x7000, 0x7010]);
    assert_eq!(layout.envp, vec![0x7100, 0x7110, 0x7120]);
    assert_eq!(layout.argc(), 2);
}

#[test]
fn decode_layout_keeps_the_order_of_the_image() {
    let image = [4, 40, 10, 30, 20, 0, 9, 8, 0];
    let layout = decode_layout(&image).unwrap();
    assert_eq!(layout.argv, vec![40, 10, 30, 20]);
    assert_eq!(layout.envp, vec![9, 8]);
}

#[test]
fn decode_layout_has_as_many_arguments_as_the_count_says() {
    for count in 0..8u64 {
        let mut image = vec![count];
        image.extend((0..count).map(|i| 0x1000 + 8 * i));
        image.push(0);
        image.push(0x2000);
        image.push(0);
        let layout = decode_layout(&image).unwrap();
        assert_eq!(layout.argc() as u64, count);
        let expected: Vec<u64> = (0..count).map(|i| 0x1000 + 8 * i).collect();
        assert_eq!(layout.argv, expected);
    }
}

#[test]
fn decode_layout_of_the_smallest_image_is_empty() {
    let layout = decode_layout(&[0, 0, 0]).unwrap();
    assert!(layout.argv.is_empty());
    assert!(layout.envp.is_empty());
    assert_eq!(layout.argc(), 0);
}

#[test]
fn decode_layout_accepts_an_empty_environment() {
    let layout = decode_layout(&[1, 0x7000, 0, 0]).unwrap();
    assert_eq!(layout.argv, vec![0x7000]);
    assert!(layout.envp.is_empty());
}

#[test]
fn decode_layout_does_not_read_past_the_environment() {
    let image = [1, 0x7000, 0, 0x7100, 0, 6, 4096, 0, 0, 0xdead, 0];
    let layout = decode_layout(&image).unwrap();
    assert_eq!(layout.argv, vec![0x7000]);
    assert_eq!(layout.envp, vec![0x7100]);
}

#[test]
fn decode_layout_of_nothing_is_truncated() {
    assert_eq!(decode_layout(&[]).unwrap_err(), LayoutFault::Truncated);
}

#[test]
fn decode_layout_without_all_arguments_is_truncated() {
    assert_eq!(decode_layout(&[2]).unwrap_err(), LayoutFault::Truncated);
    assert_eq!(decode_layout(&[2, 0x7000]).unwrap_err(), LayoutFault::Truncated);
    assert_eq!(decode_layout(&[2, 0x7000, 0x7010]).unwrap_err(), LayoutFault::Truncated);
}

#[test]
fn decode_layout_without_end_of_environment_is_truncated() {
    assert_eq!(decode_layout(&[0, 0]).unwrap_err(), LayoutFault::Truncated);
    assert_eq!(decode_layout(&[1, 0x7000, 0, 0x7100]).unwrap_err(), LayoutFault::Truncated);
}

#[test]
fn decode_layout_reports_a_null_argument() {
    assert_eq!(decode_layout(&[2, 0x7000, 0, 0, 0]).unwrap_err(), LayoutFault::NullArgument);
    assert_eq!(decode_layout(&[1, 0]).unwrap_err(), LayoutFault::NullArgument);
    assert_eq!(decode_layout(&[u64::MAX, 0x7000, 0, 0]).unwrap_err(), LayoutFault::NullArgument);
}

#[test]
fn decode_layout_reports_a_missing_terminator() {
    assert_eq!(decode_layout(&[1, 0x7000, 0x7010, 0, 0]).unwrap_err(), LayoutFault::MissingTerminator);
    assert_eq!(decode_layout(&[0, 0x7000, 0]).unwrap_err(), LayoutFault::MissingTerminator);
}

#[test]
fn layout_decoder_asks_for_words_up_to_the_end_of_the_environment() {
    let image = [2u64, 0x7000, 0x7010, 0, 0x7100, 0, 33, 44];
    let mut decoder = LayoutDecoder::new();
    let mut taken = 0;
    while decoder.is_pending() {
        decoder = decoder.feed(image[taken]);
        taken += 1;
    }
    assert_eq!(taken, 6);
    let layout = decoder.finish().unwrap();
    assert_eq!(layout.argv, vec![0x7000, 0x7010]);
    assert_eq!(layout.envp, vec![0x7100]);
}

#[test]
fn layout_decoder_is_pending_until_fed() {
    let decoder = LayoutDecoder::new();
    assert!(decoder.is_pending());
    assert_eq!(decoder.finish().unwrap_err(), LayoutFault::Truncated);
}

#[test]
fn layout_decoder_leaves_aside_what_comes_after_the_end() {
    let mut decoder = LayoutDecoder::new();
    for word in [1u64, 0x7000, 0, 0x7100, 0] {
        decoder = decoder.feed(word);
    }
    assert!(!decoder.is_pending());
    decoder = decoder.feed(0x9999);
    decoder = decoder.feed(0);
    assert!(!decoder.is_pending());
    let layout = decoder.finish().unwrap();
    assert_eq!(layout.argv, vec![0x7000]);
    assert_eq!(layout.envp, vec![0x7100]);
}

#[test]
fn layout_decoder_stops_at_a_fault() {
    let mut decoder = LayoutDecoder::new();
    decoder = decoder.feed(2);
    decoder = decoder.feed(0x7000);
    assert!(decoder.is_pending());
    decoder = decoder.feed(0);
    assert!(!decoder.is_pending());
    decoder = decoder.feed(0x7010);
    assert_eq!(decoder.finish().unwrap_err(), LayoutFault::NullArgument);
}

#[test]
fn layout_decoder_agrees_with_decode_layout() {
    let images: Vec<Vec<u64>> = vec![
        vec![],
        vec![0],
        vec![0, 0, 0],
        vec![3, 1, 2, 3, 0, 4, 5, 0, 6],
        vec![3, 1, 2, 0, 0],
        vec![1, 1, 2, 0],
        vec![2, 1, 2, 0, 7],
    ];
    for image in images {
        let mut decoder = LayoutDecoder::new();
        for word in &image {
            decoder = decoder.feed(*word);
        }
        let fed = decoder.finish();
        let whole = decode_layout(&image);
        match (fed, whole) {
            (Ok(a), Ok(b)) => {
                assert_eq!(a.argv, b.argv);
                assert_eq!(a.envp, b.envp);
            }
            (Err(a), Err(b)) => assert_eq!(a, b),
            (a, b) => panic!("{a:?} and {b:?} differ"),
        }
    }
}

#[test]
fn process_started_as_prog_alpha_beta_prints_two_lines() {
    let memory: Vec<(u64, &[u8])> = vec![
        (0x7000, b"prog\0"),
        (0x7005, b"alpha\0"),
        (0x700b, b"beta\0"),
        (0x7010, b"HOME=/root\0"),
    ];
    let image = [3, 0x7000, 0x7005, 0x700b, 0, 0x7010, 0, 6, 4096, 0, 0];
    let layout = decode_layout(&image).unwrap();
    let runs: Vec<&[u8]> = layout
        .argv
        .iter()
        .map(|pointer| memory.iter().find(|(address, _)| address == pointer).unwrap().1)
        .collect();
    let report = run_with_args(ArgIter::new(&runs));
    let output: String = report.lines.iter().map(|line| format!("{line}\n")).collect();
    assert_eq!(output, "alpha\nbeta\n");
    assert_eq!(report.exit_code(), 0);
}

#[test]
fn process_started_without_arguments_prints_nothing() {
    let image = [1, 0x7000, 0, 0];
    let layout = decode_layout(&image).unwrap();
    assert_eq!(layout.argc(), 1);
    let runs: Vec<&[u8]> = vec![b"prog\0"];
    let report = run_with_args(ArgIter::new(&runs));
    assert!(report.lines.is_empty());
    assert_eq!(report.exit_code(), 0);
}
