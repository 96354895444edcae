use fileserve::error::{ParseFault, ServerError, TransportFault};
use fileserve::multipart::{part_file_name, Action, UploadDecoder};
use fileserve::reader::{ReadOutcome, ReadRetry, ReadStep};

type Files = Vec<(Vec<u8>, Vec<u8>)>;

/// Drives a decoder over the given reads. `Ok(true)`: done; `Ok(false)`:
/// the reads ran out while it still wanted more.
fn run(boundary: &[u8], len: usize, initial: &[u8], reads: &[&[u8]]) -> (Files, Result<bool, ServerError>) {
    let mut d = UploadDecoder::new(boundary, len, initial);
    let mut files: Files = Vec::new();
    let mut next = 0;
    let mut open = false;
    loop {
        match d.advance() {
            Action::NeedMore(_) => {
                if next < reads.len() {
                    d.feed(reads[next]);
                    next += 1;
                } else {
                    return (files, Ok(false));
                }
            }
            Action::Open(name) => {
                assert!(!open);
                open = true;
                files.push((name, Vec::new()));
            }
            Action::Write(bytes) => {
                assert!(open);
                files.last_mut().unwrap().1.extend_from_slice(&bytes);
            }
            Action::Close => {
                assert!(open);
                open = false;
            }
            Action::Done => return (files, Ok(true)),
            Action::Fail(e) => return (files, Err(e)),
        }
    }
}

fn one_part_body() -> Vec<u8> {
    b"--XyZ\r\nContent-Disposition: form-data; name=\"file\"; filename=\"a.txt\"\r\nContent-Type: text/plain\r\n\r\nhello\r\nworld\r\n--XyZ--\r\n".to_vec()
}

fn two_part_body() -> Vec<u8> {
    b"--XyZ\r\nContent-Disposition: form-data; name=\"f\"; filename=\"one.bin\"\r\n\r\nfirst\r\n--XyZ\r\nContent-Disposition: form-data; name=\"g\"; filename=\"two.bin\"\r\n\r\nsecond\r-\r\n--XyZ--\r\n".to_vec()
}

#[test]
fn single_part_in_one_read() {
    let body = one_part_body();
    let (files, r) = run(b"XyZ", body.len(), &body, &[]);
    assert_eq!(r, Ok(true));
    assert_eq!(files, vec![(b"a.txt".to_vec(), b"hello\r\nworld".to_vec())]);
}

#[test]
fn single_part_one_byte_per_read() {
    let body = one_part_body();
    let reads: Vec<&[u8]> = body.chunks(1).collect();
    let (files, r) = run(b"XyZ", body.len(), &[], &reads);
    assert_eq!(r, Ok(true));
    assert_eq!(files, vec![(b"a.txt".to_vec(), b"hello\r\nworld".to_vec())]);
}

#[test]
fn two_parts_in_one_read() {
    let body = two_part_body();
    let (files, r) = run(b"XyZ", body.len(), &body, &[]);
    assert_eq!(r, Ok(true));
    assert_eq!(
        files,
        vec![
            (b"one.bin".to_vec(), b"first".to_vec()),
            (b"two.bin".to_vec(), b"second\r-".to_vec()),
        ]
    );
}

#[test]
fn mid_separator_split_at_every_point() {
    let body = two_part_body();
    let (whole, r) = run(b"XyZ", body.len(), &body, &[]);
    assert_eq!(r, Ok(true));
    let sep = b"\r\n--XyZ";
    let at = body.windows(sep.len()).position(|w| w == sep).unwrap();
    for k in 0..sep.len() {
        let cut = at + k;
        let (files, r) = run(b"XyZ", body.len(), &body[..cut], &[&body[cut..]]);
        assert_eq!(r, Ok(true));
        assert_eq!(files.len(), 2);
        assert_eq!(files, whole);
        let (files, r) = run(b"XyZ", body.len(), &[], &[&body[..cut], &body[cut..]]);
        assert_eq!(r, Ok(true));
        assert_eq!(files, whole);
    }
}

#[test]
fn every_read_size_gives_the_same_files() {
    let body = two_part_body();
    let (whole, _) = run(b"XyZ", body.len(), &body, &[]);
    for size in 1..body.len() {
        let reads: Vec<&[u8]> = body.chunks(size).collect();
        let (files, r) = run(b"XyZ", body.len(), &[], &reads);
        assert_eq!(r, Ok(true));
        assert_eq!(files, whole);
    }
}

#[test]
fn exact_length_succeeds() {
    let body = one_part_body();
    let (_, r) = run(b"XyZ", body.len(), &body[..10], &[&body[10..]]);
    assert_eq!(r, Ok(true));
}

#[test]
fn one_byte_short_never_finishes() {
    let body = one_part_body();
    let short = &body[..body.len() - 1];
    let (_, r) = run(b"XyZ", body.len(), &[], &[short]);
    assert_eq!(r, Ok(false));
}

#[test]
fn one_byte_short_then_closed_is_a_transport_error() {
    let body = one_part_body();
    let mut d = UploadDecoder::new(b"XyZ", body.len(), &body[..body.len() - 1]);
    let mut retry = ReadRetry::new();
    let mut outcome = Ok(());
    loop {
        match d.advance() {
            Action::NeedMore(_) => match retry.record(ReadOutcome::Empty) {
                ReadStep::GiveUp(e) => {
                    outcome = Err(e);
                    break;
                }
                ReadStep::Sleep(_) => {}
                ReadStep::Scan => unreachable!(),
            },
            Action::Done => break,
            Action::Fail(e) => {
                outcome = Err(e);
                break;
            }
            _ => {}
        }
    }
    assert_eq!(
        outcome,
        Err(ServerError::TransportError(TransportFault::RetriesExhausted))
    );
}

#[test]
fn trailing_bytes_past_the_length_are_ignored() {
    let body = one_part_body();
    let mut more = body.clone();
    more.extend_from_slice(b"GET / HTTP/1.1\r\n\r\n");
    let (files, r) = run(b"XyZ", body.len(), &more, &[]);
    assert_eq!(r, Ok(true));
    assert_eq!(files, vec![(b"a.txt".to_vec(), b"hello\r\nworld".to_vec())]);
}

#[test]
fn malformed_first_separator_fails_without_a_file() {
    let mut body = one_part_body();
    body[2] = b'Q';
    let (files, r) = run(b"XyZ", body.len(), &body, &[]);
    assert_eq!(
        r,
        Err(ServerError::HTTPParseError(ParseFault::MissingFirstSeparator, Vec::new()))
    );
    assert!(files.is_empty());
    let mut body = one_part_body();
    body[5] = b'\n';
    let (files, r) = run(b"XyZ", body.len(), &[], &[&body]);
    assert!(matches!(r, Err(ServerError::HTTPParseError(ParseFault::MissingFirstSeparator, _))));
    assert!(files.is_empty());
}

#[test]
fn short_length_is_an_empty_upload() {
    let (files, r) = run(b"XyZ", 7, b"garbage", &[]);
    assert_eq!(r, Ok(true));
    assert!(files.is_empty());
    let (files, r) = run(b"XyZ", 0, b"", &[]);
    assert_eq!(r, Ok(true));
    assert!(files.is_empty());
}

#[test]
fn body_ending_inside_a_part_keeps_its_content() {
    let body = b"--XyZ\r\nContent-Disposition: form-data; filename=\"t\"\r\n\r\nabc\r\n--Xy";
    let (files, r) = run(b"XyZ", body.len(), body, &[]);
    assert_eq!(r, Ok(true));
    assert_eq!(files, vec![(b"t".to_vec(), b"abc\r\n--Xy".to_vec())]);
}

#[test]
fn part_without_disposition_fails() {
    let body = b"--XyZ\r\nContent-Type: text/plain\r\n\r\nabc\r\n--XyZ--\r\n";
    let (files, r) = run(b"XyZ", body.len(), body, &[]);
    assert_eq!(
        r,
        Err(ServerError::HTTPParseError(ParseFault::MissingContentDisposition, Vec::new()))
    );
    assert!(files.is_empty());
}

#[test]
fn second_part_without_filename_fails_after_the_first() {
    let body = b"--XyZ\r\nContent-Disposition: form-data; filename=\"a\"\r\n\r\nx\r\n--XyZ\r\nContent-Disposition: form-data; name=\"b\"\r\n\r\ny\r\n--XyZ--\r\n";
    let (files, r) = run(b"XyZ", body.len(), body, &[]);
    assert_eq!(
        r,
        Err(ServerError::HTTPParseError(ParseFault::MissingFilename, Vec::new()))
    );
    assert_eq!(files, vec![(b"a".to_vec(), b"x".to_vec())]);
}

#[test]
fn part_file_name_rules() {
    assert_eq!(
        part_file_name(b"Content-Disposition: form-data; name=\"f\"; filename=\"\"\"q.txt\"\""),
        Ok(b"q.txt".to_vec())
    );
    assert_eq!(
        part_file_name(b"Content-Disposition: form-data; filename=\"\""),
        Err(ParseFault::MissingFilename)
    );
    assert_eq!(
        part_file_name(b"Content-Disposition: form-data; name=\"f\""),
        Err(ParseFault::MissingFilename)
    );
    assert_eq!(part_file_name(b""), Err(ParseFault::MissingContentDisposition));
    assert_eq!(
        part_file_name(b"Content-Disposition: x; filename=a\r\nContent-Disposition: y; filename=b"),
        Ok(b"b".to_vec())
    );
}

#[test]
fn wrong_start_fails_before_the_separator_is_complete() {
    let (files, r) = run(b"XyZ", 100, b"-Q", &[]);
    assert_eq!(
        r,
        Err(ServerError::HTTPParseError(ParseFault::MissingFirstSeparator, Vec::new()))
    );
    assert!(files.is_empty());
    let (_, r) = run(b"XyZ", 100, b"--Xy", &[]);
    assert_eq!(r, Ok(false));
}

#[test]
fn bad_part_header_fails_without_waiting_for_the_rest() {
    let head = b"--XyZ\r\nContent-Type: text/plain\r\n\r\n";
    let (files, r) = run(b"XyZ", 10_000, head, &[]);
    assert_eq!(
        r,
        Err(ServerError::HTTPParseError(ParseFault::MissingContentDisposition, Vec::new()))
    );
    assert!(files.is_empty());
}

#[test]
fn empty_upload_is_done_at_once() {
    let mut d = UploadDecoder::new(b"XyZ", 7, b"");
    assert!(matches!(d.advance(), Action::Done));
    assert!(matches!(d.advance(), Action::Done));
}

#[test]
fn content_is_written_before_the_body_ends() {
    let mut body = b"--XyZ\r\nContent-Disposition: form-data; filename=\"big\"\r\n\r\n".to_vec();
    let head_len = body.len();
    body.extend(std::iter::repeat(b'a').take(5000));
    body.extend_from_slice(b"\r\n--XyZ--\r\n");
    let mut d = UploadDecoder::new(b"XyZ", body.len(), &body[..head_len + 3000]);
    let mut written = 0;
    loop {
        match d.advance() {
            Action::NeedMore(_) => break,
            Action::Write(bytes) => written += bytes.len(),
            Action::Open(_) => {}
            other => panic!("unexpected {}", matches!(other, Action::Done)),
        }
    }
    assert!(written >= 3000 - 8);
}
