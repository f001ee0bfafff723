use xmap::index::build_index;
use xmap::parse::{parse_line, parse_xmap_file, LineOutcome, ParseError, XmapField};

fn sample_xmap_content() -> &'static str {
    "# hostname=imuno5p-compute\n#h XmapEntryID\tQryContigID\tRefContigID\tQryStartPos\tQryEndPos\tRefStartPos\tRefEndPos\tOrientation\tConfidence\tHitEnum\tQryLen\tRefLen\n1\t4881976\t1\t103833.0\t2059.6\t4561.0\t111073.0\t-\t15.11\t1M1D4M1D1M1D9M\t103833.0\t117599.0\n2\t1269991\t1\t107882.8\t229.3\t4561.0\t117599.0\t-\t16.87\t1M1D6M1D7M1I3M\t107882.8\t117599.0\n3\t4881976\t2\t10214.4\t118509.6\t4561.0\t117599.0\t+\t17.81\t1M1D6M1D10M\t118509.6\t117599.0"
}

fn number(text: &Vec<char>) -> f64 {
    text.iter().collect::<String>().parse::<f64>().unwrap()
}

fn spelled(text: &Vec<char>) -> String {
    text.iter().collect()
}

fn chars(s: &str) -> Vec<char> {
    s.chars().collect()
}

/// A record line with the given fields 0 to 8 and a reference length.
fn line(fields: [&str; 9], ref_len: &str) -> String {
    let mut all: Vec<&str> = fields.to_vec();
    all.push("1M");
    all.push("2000.0");
    all.push(ref_len);
    all.join("\t")
}

fn good_fields() -> [&'static str; 9] {
    ["1", "100", "1", "1000.0", "2000.0", "5000.0", "6000.0", "+", "15.0"]
}

fn failure(content: &str) -> ParseError {
    match parse_xmap_file(content) {
        Ok(_) => panic!("the content parsed"),
        Err(e) => e,
    }
}

fn field_failure(position: usize, bad: &str) -> ParseError {
    let mut fields = good_fields();
    fields[position] = bad;
    failure(&line(fields, "250000.0"))
}

#[test]
fn test_parse_xmap_file() {
    let (records, chr_lengths) = parse_xmap_file(sample_xmap_content()).unwrap();
    assert_eq!(records.len(), 3);
    assert_eq!(chr_lengths.len(), 2);

    let rec1 = records.get(1).unwrap();
    assert_eq!(rec1.qry_contig_id, 4881976);
    assert_eq!(rec1.ref_contig_id, 1);
    assert_eq!(rec1.orientation, '-');
    assert_eq!(number(rec1.confidence.text()), 15.11);
    assert_eq!(number(rec1.ref_len.text()), 117599.0);
}

#[test]
fn test_build_index() {
    let (records, _) = parse_xmap_file(sample_xmap_content()).unwrap();
    let index = build_index(records);
    assert_eq!(index.len(), 2);

    let qry_map = index.get(4881976).unwrap();
    assert_eq!(qry_map.len(), 2);
}

#[test]
fn parse_keeps_every_field_as_written() {
    let (records, lengths) = parse_xmap_file(sample_xmap_content()).unwrap();
    let r = records.get(3).unwrap();
    assert_eq!(r.xmap_entry_id, 3);
    assert_eq!(r.qry_contig_id, 4881976);
    assert_eq!(r.ref_contig_id, 2);
    assert_eq!(spelled(r.qry_start_pos.text()), "10214.4");
    assert_eq!(spelled(r.qry_end_pos.text()), "118509.6");
    assert_eq!(spelled(r.ref_start_pos.text()), "4561.0");
    assert_eq!(spelled(r.ref_end_pos.text()), "117599.0");
    assert_eq!(r.orientation, '+');
    assert_eq!(spelled(r.confidence.text()), "17.81");
    assert_eq!(spelled(r.ref_len.text()), "117599.0");
    assert_eq!(spelled(lengths.get(1).unwrap().text()), "117599.0");
    assert_eq!(spelled(lengths.get(2).unwrap().text()), "117599.0");
    assert!(lengths.get(3).is_none());
    assert!(records.get(4).is_none());
}

#[test]
fn parse_of_nothing_is_empty() {
    let (records, lengths) = parse_xmap_file("").unwrap();
    assert_eq!(records.len(), 0);
    assert_eq!(lengths.len(), 0);
    let (records, lengths) = parse_xmap_file("# only a comment\n\n   \n").unwrap();
    assert_eq!(records.len(), 0);
    assert_eq!(lengths.len(), 0);
}

#[test]
fn a_short_line_is_dropped_before_any_field_is_read() {
    let content = "x\t100\t1\t1000.0\t2000.0\t5000.0\t6000.0\t+\t15.0\t1M\t2000.0";
    let (records, lengths) = parse_xmap_file(content).unwrap();
    assert_eq!(records.len(), 0);
    assert_eq!(lengths.len(), 0);
}

#[test]
fn an_entry_identifier_that_stands_twice_is_no_error() {
    let content = "1\t100\t1\t1000.0\t2000.0\t5000.0\t6000.0\t+\t15.0\t1M\t2000.0\t250000.0\n1\t200\t2\t1000.0\t2000.0\t5000.0\t6000.0\t+\t15.0\t1M\t2000.0\t250000.0";
    let (records, lengths) = parse_xmap_file(content).unwrap();
    assert_eq!(records.len(), 1);
    assert!(records.get(1).is_some());
    assert_eq!(lengths.len(), 2);
    assert!(lengths.get(1).is_some());
    assert!(lengths.get(2).is_some());
}

#[test]
fn parse_passes_over_comments_blank_and_short_lines() {
    let content = format!(
        "# comment\n\n   \n\t\t\t\t\t\t\t\t\t\t\t\t\n1\t2\t3\n{}\n#{}\n",
        line(good_fields(), "250000.0"),
        line(good_fields(), "250000.0")
    );
    let (records, lengths) = parse_xmap_file(&content).unwrap();
    assert_eq!(records.len(), 1);
    assert_eq!(lengths.len(), 1);
    assert_eq!(records.get(1).unwrap().qry_contig_id, 100);
}

#[test]
fn parse_passes_over_a_line_of_unicode_white_space() {
    let blank = "\u{a0}\t\u{2003}\t\u{3000}\t\t\t\t\t\t\t\t\t\u{85}";
    assert!(matches!(parse_line(&chars(blank)), LineOutcome::Skipped));
    let content = format!("{}\n{}", blank, line(good_fields(), "250000.0"));
    let (records, _) = parse_xmap_file(&content).unwrap();
    assert_eq!(records.len(), 1);
}

#[test]
fn parse_counts_records_as_data_lines_less_short_lines() {
    let mut content = String::from("# header\n");
    for id in 0..7 {
        let id_text = id.to_string();
        let mut fields = good_fields();
        fields[0] = &id_text;
        content.push_str(&line(fields, "250000.0"));
        content.push('\n');
        content.push_str("short\tline\n\n");
    }
    let (records, _) = parse_xmap_file(&content).unwrap();
    assert_eq!(records.len(), 7);
}

#[test]
fn parse_strips_carriage_returns() {
    let content = format!("{}\r\n", line(good_fields(), "250000.0"));
    let (records, lengths) = parse_xmap_file(&content).unwrap();
    assert_eq!(spelled(records.get(1).unwrap().ref_len.text()), "250000.0");
    assert_eq!(spelled(lengths.get(1).unwrap().text()), "250000.0");
    let unterminated = format!("{}\r", line(good_fields(), "250000.0"));
    let (records, _) = parse_xmap_file(&unterminated).unwrap();
    assert_eq!(spelled(records.get(1).unwrap().ref_len.text()), "250000.0");
}

#[test]
fn parse_reads_more_than_twelve_fields() {
    let content = format!("{}\textra\tfields", line(good_fields(), "250000.0"));
    let (records, _) = parse_xmap_file(&content).unwrap();
    assert_eq!(spelled(records.get(1).unwrap().ref_len.text()), "250000.0");
}

#[test]
fn parse_lets_the_last_record_of_an_identifier_win() {
    let mut first = good_fields();
    first[1] = "100";
    first[2] = "7";
    let mut second = good_fields();
    second[1] = "200";
    second[2] = "7";
    let content = format!("{}\n{}\n", line(first, "1.0"), line(second, "2.0"));
    let (records, lengths) = parse_xmap_file(&content).unwrap();
    assert_eq!(records.len(), 1);
    assert_eq!(records.get(1).unwrap().qry_contig_id, 200);
    assert_eq!(lengths.len(), 1);
    assert_eq!(spelled(lengths.get(7).unwrap().text()), "2.0");
}

#[test]
fn parse_does_not_depend_on_the_order_of_the_lines() {
    let mut a = good_fields();
    a[0] = "1";
    a[1] = "10";
    let mut b = good_fields();
    b[0] = "2";
    b[1] = "20";
    b[2] = "2";
    let one = format!("{}\n{}\n", line(a, "1.0"), line(b, "2.0"));
    let other = format!("{}\n{}\n", line(b, "2.0"), line(a, "1.0"));
    let (r1, l1) = parse_xmap_file(&one).unwrap();
    let (r2, l2) = parse_xmap_file(&other).unwrap();
    let (r3, _) = parse_xmap_file(&one).unwrap();
    assert_eq!(r1.len(), r2.len());
    assert_eq!(r1.len(), r3.len());
    for id in [1u32, 2] {
        let x = r1.get(id).unwrap();
        let y = r2.get(id).unwrap();
        let z = r3.get(id).unwrap();
        assert_eq!(x.qry_contig_id, y.qry_contig_id);
        assert_eq!(x.qry_contig_id, z.qry_contig_id);
        assert_eq!(x.ref_contig_id, y.ref_contig_id);
        assert_eq!(spelled(x.ref_len.text()), spelled(y.ref_len.text()));
        assert_eq!(spelled(x.confidence.text()), spelled(y.confidence.text()));
    }
    for id in [1u8, 2] {
        assert_eq!(spelled(l1.get(id).unwrap().text()), spelled(l2.get(id).unwrap().text()));
    }
}

#[test]
fn parse_takes_the_first_character_as_orientation() {
    let mut fields = good_fields();
    fields[7] = "reverse";
    let (records, _) = parse_xmap_file(&line(fields, "1.0")).unwrap();
    assert_eq!(records.get(1).unwrap().orientation, 'r');
    fields[7] = "";
    let (records, _) = parse_xmap_file(&line(fields, "1.0")).unwrap();
    assert_eq!(records.get(1).unwrap().orientation, '+');
    fields[7] = "\u{1f600}x";
    let (records, _) = parse_xmap_file(&line(fields, "1.0")).unwrap();
    assert_eq!(records.get(1).unwrap().orientation, '\u{1f600}');
}

#[test]
fn parse_names_each_failing_field() {
    assert_eq!(field_failure(0, "x").field, XmapField::XmapEntryId);
    assert_eq!(field_failure(1, "").field, XmapField::QryContigId);
    assert_eq!(field_failure(2, "256").field, XmapField::RefContigId);
    assert_eq!(field_failure(3, "1.2.3").field, XmapField::QryStartPos);
    assert_eq!(field_failure(4, "1e").field, XmapField::QryEndPos);
    assert_eq!(field_failure(5, ".").field, XmapField::RefStartPos);
    assert_eq!(field_failure(6, " 1").field, XmapField::RefEndPos);
    assert_eq!(field_failure(8, "high").field, XmapField::Confidence);
    let e = failure(&line(good_fields(), "long"));
    assert_eq!(e, ParseError { line: 0, field: XmapField::RefLen });
}

#[test]
fn parse_names_the_first_failing_field_in_reading_order() {
    let mut fields = good_fields();
    fields[0] = "x";
    fields[2] = "y";
    assert_eq!(failure(&line(fields, "z")).field, XmapField::RefContigId);
    fields[2] = "1";
    assert_eq!(failure(&line(fields, "z")).field, XmapField::RefLen);
    assert_eq!(failure(&line(fields, "1")).field, XmapField::XmapEntryId);
}

#[test]
fn parse_names_the_first_failing_line() {
    let mut bad_entry = good_fields();
    bad_entry[0] = "-1";
    let mut bad_contig = good_fields();
    bad_contig[1] = "4294967296";
    let content = format!(
        "# comment\n{}\nshort\n{}\n{}\n",
        line(good_fields(), "1.0"),
        line(bad_contig, "1.0"),
        line(bad_entry, "1.0")
    );
    assert_eq!(failure(&content), ParseError { line: 3, field: XmapField::QryContigId });
}

#[test]
fn parse_line_tells_the_three_outcomes() {
    assert!(matches!(parse_line(&chars("")), LineOutcome::Skipped));
    assert!(matches!(parse_line(&chars("#1\t2")), LineOutcome::Skipped));
    assert!(matches!(parse_line(&chars("a\tb\tc\td\te\tf\tg\th\ti\tj\tk")), LineOutcome::Skipped));
    assert!(matches!(
        parse_line(&chars("a\tb\tc\td\te\tf\tg\th\ti\tj\tk\tl")),
        LineOutcome::Failed(XmapField::RefContigId)
    ));
    match parse_line(&chars(&line(good_fields(), "+.5e-3"))) {
        LineOutcome::Record(r) => {
            assert_eq!(r.xmap_entry_id, 1);
            assert_eq!(spelled(r.ref_len.text()), "+.5e-3");
        }
        _ => panic!("the line is a record"),
    }
}

#[test]
fn parse_accepts_the_largest_identifiers() {
    let mut fields = good_fields();
    fields[0] = "+4294967295";
    fields[1] = "0004294967295";
    fields[2] = "255";
    let (records, lengths) = parse_xmap_file(&line(fields, "inf")).unwrap();
    let r = records.get(4294967295).unwrap();
    assert_eq!(r.qry_contig_id, 4294967295);
    assert_eq!(r.ref_contig_id, 255);
    assert_eq!(number(lengths.get(255).unwrap().text()), f64::INFINITY);
}

/// What the standard parsers make of a line: `None` for a line that is passed
/// over, else the failing field or the identifiers, the orientation and the
/// number fields of the record.
fn by_the_standard_parsers(
    line: &str,
) -> Option<Result<(u32, u32, u8, char, Vec<String>), XmapField>> {
    if line.starts_with('#') || line.trim().is_empty() {
        return None;
    }
    let fields: Vec<&str> = line.split('\t').collect();
    if fields.len() < 12 {
        return None;
    }
    let real = |at: usize, field: XmapField| match fields[at].parse::<f64>() {
        Ok(_) => Ok(fields[at].to_string()),
        Err(_) => Err(field),
    };
    let read = || {
        let ref_contig_id = fields[2].parse::<u8>().map_err(|_| XmapField::RefContigId)?;
        let ref_len = real(11, XmapField::RefLen)?;
        let xmap_entry_id = fields[0].parse::<u32>().map_err(|_| XmapField::XmapEntryId)?;
        let qry_contig_id = fields[1].parse::<u32>().map_err(|_| XmapField::QryContigId)?;
        let qry_start_pos = real(3, XmapField::QryStartPos)?;
        let qry_end_pos = real(4, XmapField::QryEndPos)?;
        let ref_start_pos = real(5, XmapField::RefStartPos)?;
        let ref_end_pos = real(6, XmapField::RefEndPos)?;
        let orientation = fields[7].chars().next().unwrap_or('+');
        let confidence = real(8, XmapField::Confidence)?;
        Ok((
            xmap_entry_id,
            qry_contig_id,
            ref_contig_id,
            orientation,
            vec![qry_start_pos, qry_end_pos, ref_start_pos, ref_end_pos, confidence, ref_len],
        ))
    };
    Some(read())
}

#[test]
fn parse_line_agrees_with_the_standard_parsers() {
    let tokens = [
        "", "0", "1", "7", "255", "256", "+3", "-3", "4294967295", "4294967296", "1.5", ".5",
        "5.", ".", "1e3", "1E-3", "1e", "inf", "-Infinity", "nan", "NaNs", " ", "\u{a0}", "#",
        "x", "+", "-", "1 ", "\r", "00012", "1_000", "\u{1f600}", "1.2.3", "e5", "0x1",
    ];
    let mut state: u64 = 0x2545_f491_4f6c_dd1d;
    let mut next = |bound: usize| {
        state ^= state << 13;
        state ^= state >> 7;
        state ^= state << 17;
        (state % bound as u64) as usize
    };
    let mut records = 0;
    let mut failures = 0;
    let mut skipped = 0;
    for round in 0..20000 {
        let count = if round % 4 == 0 { next(15) } else { 12 + next(2) };
        let sound = round % 3 != 0;
        let mut fields: Vec<&str> = Vec::new();
        for at in 0..count {
            let token = if sound && at != 7 && at < 12 {
                ["1", "7", "255", "1.5", "00012", "+3"][next(6)]
            } else {
                tokens[next(tokens.len())]
            };
            fields.push(token);
        }
        if round % 5 == 0 && count > 0 {
            let at = next(count);
            fields[at] = tokens[next(tokens.len())];
        }
        let line = fields.join("\t");
        let chars: Vec<char> = line.chars().collect();
        let expected = by_the_standard_parsers(&line);
        match (parse_line(&chars), expected) {
            (LineOutcome::Skipped, None) => skipped += 1,
            (LineOutcome::Failed(field), Some(Err(other))) => {
                assert_eq!(field, other, "{:?}", line);
                failures += 1;
            }
            (LineOutcome::Record(r), Some(Ok((entry, contig, reference, orientation, numbers)))) => {
                assert_eq!(r.xmap_entry_id, entry, "{:?}", line);
                assert_eq!(r.qry_contig_id, contig, "{:?}", line);
                assert_eq!(r.ref_contig_id, reference, "{:?}", line);
                assert_eq!(r.orientation, orientation, "{:?}", line);
                let texts = vec![
                    spelled(r.qry_start_pos.text()),
                    spelled(r.qry_end_pos.text()),
                    spelled(r.ref_start_pos.text()),
                    spelled(r.ref_end_pos.text()),
                    spelled(r.confidence.text()),
                    spelled(r.ref_len.text()),
                ];
                assert_eq!(texts, numbers, "{:?}", line);
                records += 1;
            }
            (got, expected) => panic!("{:?}: {:?} is not {:?}", line, got, expected),
        }
    }
    assert!(records > 1000 && failures > 1000 && skipped > 1000);
}
