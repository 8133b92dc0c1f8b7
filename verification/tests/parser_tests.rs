use delayed_hits::parse::MsrBlockIoRequest;
use delayed_hits::parse::line_to_request;
use delayed_hits::parse::parse_line;
use delayed_hits::parse::read_cdn_requests;
use delayed_hits::parse::read_msr_cambridge_requests;

#[test]
fn test_line_to_request() {
    let line = "1500598765.959000000;131428753696874742190000;;0;";
    let request = line_to_request(line).unwrap();
    assert_eq!(request.request, 131428753696874742190000);
    assert_eq!(request.timestamp.as_secs(), 1500598765);
    assert_eq!(request.timestamp.subsec_nanos(), 959000000);
}

#[test]
fn malformed_cdn_lines_are_skipped() {
    assert!(line_to_request("").is_none());
    assert!(line_to_request("12;34").is_none());
    assert!(line_to_request("1.2x;34;;0;").is_none());
    let lines = vec![
        "1.000000001;42;;0;".to_string(),
        "not a line".to_string(),
        "2.5;43;;0;".to_string(),
    ];
    let out = read_cdn_requests(&lines);
    assert_eq!(out.len(), 2);
    assert_eq!(out[0].request, 42);
    assert_eq!(out[0].timestamp.as_secs(), 1);
    assert_eq!(out[0].timestamp.subsec_nanos(), 1);
    assert_eq!(out[1].request, 43);
}

#[test]
fn msr_lines_parse() {
    // 128166372003061629 ticks = 12816637200.3061629 s since 1601, i.e.
    // 1172163600 s Unix plus 306162900 ns
    let line = "128166372003061629,hm,1,Read,383496192,32768,419";
    let r = parse_line(line).unwrap();
    assert_eq!(
        r.request,
        MsrBlockIoRequest { offset: 383496192, disk_num: 1 }
    );
    assert_eq!(r.timestamp.as_secs(), 12816637200 - 11644473600);
    assert_eq!(r.timestamp.subsec_nanos(), 306162900);
    assert!(parse_line("oops").is_none());

    let lines = vec![
        line.to_string(),
        "bad".to_string(),
        "128166372016382155,hm,0,Write,2216192,4096,385".to_string(),
    ];
    let out = read_msr_cambridge_requests(&lines);
    assert_eq!(out.len(), 2);
    assert_eq!(out[1].request.disk_num, 0);
    assert_eq!(out[1].request.offset, 2216192);
}
