use fmtbuf::WriteBuf;

/// * `.0`: Input string
/// * `.1`: The end position if the last byte was chopped off
fn test_cases() -> Vec<(&'static str, usize)> {
    vec![
        ("", 0),
        ("James", 4),
        ("_ø", 1),
        ("磨", 0),
        ("here: 见/見", 10),
        ("𨉟呐㗂越", 10),
        ("🚀", 0),
        ("🚀🚀🚀", 8),
        ("rocket: 🚀", 8),
    ]
}

fn concat_segments(segments: &[&str]) -> String {
    let mut out = String::new();
    for segment in segments {
        out.push_str(segment);
    }
    out
}

#[test]
fn rfind_utf8_end_test() {
    for (input, last_valid_idx_after_cut) in test_cases().iter() {
        let result = fmtbuf::rfind_utf8_end(input.as_bytes());
        assert_eq!(result, input.len(), "input=\"{input}\"");
        if input.len() == 0 {
            continue;
        }
        let input_truncated = &input.as_bytes()[..input.len() - 1];
        let result = fmtbuf::rfind_utf8_end(input_truncated);
        assert_eq!(
            result, *last_valid_idx_after_cut,
            "input=\"{input}\" truncated={input_truncated:?}"
        );
    }
}

#[test]
fn format_enough_space() {
    for (input, _) in test_cases().iter() {
        let buf = vec![0xffu8; 128];
        let mut writer = WriteBuf::new(buf);

        writer.write_str(input).unwrap();
        assert_eq!(input.len(), writer.position());
        let (result, _buf) = writer.finish();
        let last_idx = result.unwrap();
        assert_eq!(input.len(), last_idx);
    }
}

#[test]
fn format_enough_space_just_enough_reserved() {
    for (input, _) in test_cases().iter() {
        let mut buf = vec![0xffu8; 128];
        buf.truncate(input.len() + 1);
        let mut writer = WriteBuf::with_reserve(buf, 1);

        writer.write_str(input).unwrap();
        assert_eq!(input.len(), writer.position());
        let (result, _buf) = writer.finish();
        let last_idx = result.unwrap();
        assert_eq!(input.len(), last_idx);
    }
}

#[test]
fn format_truncation() {
    for (input, last_valid_idx_after_cut) in test_cases().iter() {
        if input.len() == 0 {
            continue;
        }

        let mut buf = vec![0xffu8; 128];
        buf.truncate(input.len() - 1);
        let mut writer = WriteBuf::new(buf);

        writer.write_str(input).unwrap_err();
        assert_eq!(*last_valid_idx_after_cut, writer.position());
        assert!(writer.truncated());
        writer.write_str("!!!").expect_err("writes should fail here");

        let (result, _buf) = writer.finish();
        let last_idx = result.unwrap_err();
        assert_eq!(*last_valid_idx_after_cut, last_idx);
    }
}

#[test]
fn finish_with_enough_space() {
    for (input, _) in test_cases().iter() {
        let buf = vec![0xffu8; 128];
        let mut writer = WriteBuf::new(buf);

        writer.write_str(input).unwrap();
        let (result, buf) = writer.finish_with(b".123");
        let position = result.unwrap();
        assert_eq!(position, input.len() + 4);
        let expected_written = concat_segments(&[input, ".123"]);
        let actually_written = core::str::from_utf8(&buf[..position]).unwrap();
        assert_eq!(expected_written.as_str(), actually_written);
    }
}

#[test]
fn finish_with_overwrite() {
    for (input, last_valid_idx_after_cut) in test_cases().iter() {
        if input.len() == 0 {
            continue;
        }

        let mut buf = vec![0xffu8; 128];
        buf.truncate(input.len());
        let mut writer = WriteBuf::new(buf);

        writer.write_str(input).unwrap();
        let (result, buf) = writer.finish_with("?".as_bytes());
        let position = result.unwrap_err();
        assert_eq!(position, last_valid_idx_after_cut + 1);
        let expected_written = concat_segments(&[
            core::str::from_utf8(&input.as_bytes()[..*last_valid_idx_after_cut]).unwrap(),
            "?",
        ]);
        let actually_written = core::str::from_utf8(&buf[..position]).unwrap();
        assert_eq!(expected_written.as_str(), actually_written);
    }
}

#[test]
fn finish_with_or_with_longer_normal_closer() {
    let buf = vec![0xffu8; 4];
    let writer = WriteBuf::new(buf);

    let (result, buf) = writer.finish_with_or("0123456789".as_bytes(), "abc".as_bytes());
    let written = result.unwrap_err();
    assert_eq!(written, 3);
    assert_eq!("abc", core::str::from_utf8(&buf[..written]).unwrap());
}

#[test]
fn finish_with_full_overwrite_utf8() {
    let buf = vec![0xffu8; 4];
    let writer = WriteBuf::new(buf);

    let (result, buf) = writer.finish_with("🚀12".as_bytes());
    let written = result.unwrap_err();
    assert_eq!(written, 2);
    assert_eq!("12", core::str::from_utf8(&buf[..written]).unwrap());
}

#[test]
fn set_reserve_should_not_change_written() {
    let buf = vec![0xffu8; 10];
    let mut writer = WriteBuf::new(buf);

    writer.write_str("0123456789").unwrap();
    assert_eq!("0123456789", writer.written());

    writer.set_reserve(4);
    assert_eq!("0123456789", writer.written());

    let (result, buf) = writer.finish_with_or(b"", b"!");
    result.unwrap();
    assert_eq!("0123456789", core::str::from_utf8(&buf).unwrap());
}
