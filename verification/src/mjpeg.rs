use vstd::prelude::*;

verus! {

/// The string that separates the frames of the stream.
pub open spec fn boundary() -> Seq<char> {
    "frame"@
}

/// The value of the stream's content type header.
pub open spec fn stream_content_type() -> Seq<char> {
    "multipart/x-mixed-replace; boundary=frame"@
}

/// The bytes of a text.
pub open spec fn text(s: Seq<char>) -> Seq<u8> {
    vstd::utf8::encode_utf8(s)
}

/// The decimal digits of `n`.
pub open spec fn decimal(n: nat) -> Seq<u8>
    decreases n,
{
    if n < 10 {
        seq![(48 + n) as u8]
    } else {
        decimal(n / 10).push((48 + n % 10) as u8)
    }
}

/// A part of the stream up to the length of its frame.
pub open spec fn part_head() -> Seq<u8> {
    text("--frame\r\nContent-Type: image/jpeg\r\nContent-Length: "@)
}

/// What stands between the headers of a part and its frame.
pub open spec fn blank_line() -> Seq<u8> {
    text("\r\n\r\n"@)
}

/// What ends a part.
pub open spec fn line_end() -> Seq<u8> {
    text("\r\n"@)
}

/// A frame as a part of the stream: its headers, with its length, and its bytes.
pub open spec fn part(jpeg: Seq<u8>) -> Seq<u8> {
    part_head() + decimal(jpeg.len()) + blank_line() + jpeg + line_end()
}

/// What a shared buffer holds.
pub uninterp spec fn buffer_bytes(b: bytes::Bytes) -> Seq<u8>;

/// A shared buffer of the `bytes` crate.
#[verifier::external_type_specification]
#[verifier::external_body]
pub struct ExBytes(bytes::Bytes);

/// Calls `bytes::Bytes::from` on a vector: the buffer holds the vector's bytes.
#[verifier::external_body]
fn bytes_from_vec(v: Vec<u8>) -> (r: bytes::Bytes)
    ensures
        buffer_bytes(r) == v@,
{
    bytes::Bytes::from(v)
}

fn push_all(out: &mut Vec<u8>, bytes: &[u8])
    ensures
        final(out)@ == old(out)@ + bytes@,
{
    out.extend_from_slice(bytes);
    assert(out@ =~= old(out)@ + bytes@);
}

fn push_decimal(out: &mut Vec<u8>, n: usize)
    ensures
        final(out)@ == old(out)@ + decimal(n as nat),
    decreases n,
{
    if n >= 10 {
        push_decimal(out, n / 10);
    }
    let digit: u8 = (n % 10) as u8;
    out.push(48 + digit);
    assert(out@ =~= old(out)@ + decimal(n as nat));
}

/// The value of the stream's content type header.
pub fn content_type() -> (r: &'static str)
    ensures
        r@ == stream_content_type(),
{
    "multipart/x-mixed-replace; boundary=frame"
}

/// A frame as a part of the stream.
pub fn mjpeg_part(jpeg: &[u8]) -> (r: Vec<u8>)
    ensures
        r@ == part(jpeg@),
{
    let mut mjpeg: Vec<u8> = Vec::new();
    push_all(&mut mjpeg, "--frame\r\nContent-Type: image/jpeg\r\nContent-Length: ".as_bytes());
    push_decimal(&mut mjpeg, jpeg.len());
    push_all(&mut mjpeg, "\r\n\r\n".as_bytes());
    push_all(&mut mjpeg, jpeg);
    push_all(&mut mjpeg, "\r\n".as_bytes());
    assert(mjpeg@ =~= part(jpeg@));
    mjpeg
}

/// A frame as a part of the stream, in a buffer that all viewers share.
pub fn mjpeg_message(jpeg: &[u8]) -> (r: bytes::Bytes)
    ensures
        buffer_bytes(r) == part(jpeg@),
{
    bytes_from_vec(mjpeg_part(jpeg))
}

/// The number that digits spell.
pub open spec fn read_decimal(s: Seq<u8>) -> int
    decreases s.len(),
{
    if s.len() == 0 {
        0
    } else {
        10 * read_decimal(s.drop_last()) + (s.last() - 48)
    }
}

/// Every byte is a digit, and the digits spell the number.
proof fn lemma_decimal(n: nat)
    ensures
        decimal(n).len() > 0,
        forall|i: int| 0 <= i < decimal(n).len() ==> 48 <= #[trigger] decimal(n)[i] <= 57,
        read_decimal(decimal(n)) == n,
    decreases n,
{
    reveal_with_fuel(read_decimal, 2);
    if n < 10 {
        assert(decimal(n).drop_last() =~= Seq::<u8>::empty());
    } else {
        lemma_decimal(n / 10);
        assert(decimal(n).drop_last() =~= decimal(n / 10));
    }
}

proof fn lemma_separators()
    ensures
        blank_line().len() == 4,
        blank_line() == seq![13u8, 10, 13, 10],
        line_end() == seq![13u8, 10],
{
    reveal_strlit("\r\n\r\n");
    reveal_strlit("\r\n");
    vstd::utf8::is_ascii_chars_encode_utf8("\r\n\r\n"@);
    vstd::utf8::is_ascii_chars_encode_utf8("\r\n"@);
    assert(blank_line() =~= seq![13u8, 10, 13, 10]);
    assert(line_end() =~= seq![13u8, 10]);
}

/// Where digits are followed by something that starts with no digit, it is clear where they end.
proof fn lemma_same_digits(a: Seq<u8>, x: Seq<u8>, b: Seq<u8>, y: Seq<u8>)
    requires
        a + x == b + y,
        x.len() > 0 && x[0] == 13,
        y.len() > 0 && y[0] == 13,
        forall|i: int| 0 <= i < a.len() ==> 48 <= #[trigger] a[i] <= 57,
        forall|i: int| 0 <= i < b.len() ==> 48 <= #[trigger] b[i] <= 57,
    ensures
        a == b,
        x == y,
{
    if a.len() < b.len() {
        assert((a + x)[a.len() as int] == 13);
        assert((b + y)[a.len() as int] == b[a.len() as int]);
    } else if b.len() < a.len() {
        assert((b + y)[b.len() as int] == 13);
        assert((a + x)[b.len() as int] == a[b.len() as int]);
    }
    assert(a =~= (a + x).take(a.len() as int));
    assert(b =~= (b + y).take(b.len() as int));
    assert(x =~= (a + x).skip(a.len() as int));
    assert(y =~= (b + y).skip(b.len() as int));
}

proof fn lemma_split(p: Seq<u8>, x: Seq<u8>, q: Seq<u8>, y: Seq<u8>)
    requires
        p + x == q + y,
        p.len() == q.len(),
    ensures
        p == q,
        x == y,
{
    assert(p =~= (p + x).take(p.len() as int));
    assert(q =~= (q + y).take(p.len() as int));
    assert(x =~= (p + x).skip(p.len() as int));
    assert(y =~= (q + y).skip(p.len() as int));
}

/// A stream can be read back: whatever follows, its first part gives the frame and the rest of
/// the stream, and no other frame and rest look the same.
pub proof fn first_part_is_unambiguous(a: Seq<u8>, rest_a: Seq<u8>, b: Seq<u8>, rest_b: Seq<u8>)
    requires
        part(a) + rest_a == part(b) + rest_b,
    ensures
        a == b,
        rest_a == rest_b,
{
    lemma_separators();
    lemma_decimal(a.len());
    lemma_decimal(b.len());
    let (da, db) = (decimal(a.len()), decimal(b.len()));
    let xa = blank_line() + a + line_end() + rest_a;
    let xb = blank_line() + b + line_end() + rest_b;
    assert(part(a) + rest_a =~= part_head() + (da + xa));
    assert(part(b) + rest_b =~= part_head() + (db + xb));
    lemma_split(part_head(), da + xa, part_head(), db + xb);
    lemma_same_digits(da, xa, db, xb);
    assert(a.len() == b.len());
    assert(xa =~= blank_line() + (a + (line_end() + rest_a)));
    assert(xb =~= blank_line() + (b + (line_end() + rest_b)));
    lemma_split(blank_line(), a + (line_end() + rest_a), blank_line(), b + (line_end() + rest_b));
    lemma_split(a, line_end() + rest_a, b, line_end() + rest_b);
    lemma_split(line_end(), rest_a, line_end(), rest_b);
}

/// Viewers find the parts: each starts with two dashes, the boundary that the content type header
/// announces, and a line end.
pub proof fn parts_start_with_the_announced_boundary(jpeg: Seq<u8>)
    ensures
        stream_content_type() == "multipart/x-mixed-replace; boundary="@ + boundary(),
        part(jpeg).len() >= 9,
        part(jpeg).take(9) == text("--"@) + text(boundary()) + line_end(),
{
    reveal_strlit("multipart/x-mixed-replace; boundary=frame");
    reveal_strlit("multipart/x-mixed-replace; boundary=");
    reveal_strlit("frame");
    reveal_strlit("--");
    reveal_strlit("\r\n");
    reveal_strlit("--frame\r\nContent-Type: image/jpeg\r\nContent-Length: ");
    assert(stream_content_type() =~= "multipart/x-mixed-replace; boundary="@ + boundary());
    vstd::utf8::is_ascii_chars_encode_utf8("frame"@);
    vstd::utf8::is_ascii_chars_encode_utf8("--"@);
    vstd::utf8::is_ascii_chars_encode_utf8("\r\n"@);
    let head = "--frame\r\nContent-Type: image/jpeg\r\nContent-Length: "@;
    vstd::utf8::is_ascii_chars_encode_utf8(head);
    let start = text("--"@) + text(boundary()) + line_end();
    assert(start.len() == 9);
    assert forall|i: int| 0 <= i < 9 implies part(jpeg)[i] == start[i] by {
        assert(part(jpeg)[i] == head[i] as u8);
        if i < 2 {
            assert(start[i] == "--"@[i] as u8);
        } else if i < 7 {
            assert(start[i] == "frame"@[i - 2] as u8);
        } else {
            assert(start[i] == "\r\n"@[i - 7] as u8);
        }
    }
    assert(part(jpeg).take(9) =~= start);
}

/// A blank line, and the end of the line before it, start here.
pub open spec fn blank_line_at(stream: Seq<u8>, n: int) -> bool {
    n + 4 <= stream.len() && stream[n] == 13 && stream[n + 1] == 10 && stream[n + 2] == 13 && stream[n + 3] == 10
}

/// Where the first blank line stands, from a place on; the end where there is none.
pub open spec fn headers_end(stream: Seq<u8>, from: int) -> int
    decreases stream.len() - from,
{
    if from >= stream.len() || blank_line_at(stream, from) {
        from
    } else {
        headers_end(stream, from + 1)
    }
}

/// What follows the last space.
pub open spec fn last_word(s: Seq<u8>) -> Seq<u8>
    decreases s.len(),
{
    if s.len() == 0 || s.last() == 32 {
        Seq::empty()
    } else {
        last_word(s.drop_last()).push(s.last())
    }
}

/// Reads a part as a viewer does: the number at the end of its headers says how many bytes after the
/// blank line are its frame; a line end follows, and then the rest of the stream.
pub open spec fn read_part(stream: Seq<u8>) -> (Seq<u8>, Seq<u8>) {
    let start = headers_end(stream, 0) + 4;
    let length = read_decimal(last_word(stream.take(start - 4)));
    (stream.subrange(start, start + length), stream.skip(start + length + 2))
}

proof fn lemma_headers_end(stream: Seq<u8>, from: int, n: int)
    requires
        0 <= from <= n,
        blank_line_at(stream, n),
        forall|m: int| from <= m < n ==> !blank_line_at(stream, m),
    ensures
        headers_end(stream, from) == n,
    decreases n - from,
{
    if from < n {
        assert(!blank_line_at(stream, from));
        lemma_headers_end(stream, from + 1, n);
    }
}

proof fn lemma_last_word(s: Seq<u8>, word: Seq<u8>)
    requires
        s.len() > 0 && s.last() == 32,
        forall|i: int| 0 <= i < word.len() ==> #[trigger] word[i] != 32,
    ensures
        last_word(s + word) == word,
    decreases word.len(),
{
    if word.len() == 0 {
        assert(s + word =~= s);
        assert(last_word(s) =~= word);
    } else {
        let rest = word.drop_last();
        assert forall|i: int| 0 <= i < rest.len() implies #[trigger] rest[i] != 32 by {
            assert(rest[i] == word[i]);
        }
        lemma_last_word(s, rest);
        assert((s + word).drop_last() =~= s + rest);
        assert((s + word).last() == word.last());
        assert(word[word.len() - 1] != 32);
        assert(rest.push(word.last()) =~= word);
    }
}

/// The headers have line ends within them, but no blank line, and a space before the length.
proof fn lemma_part_head()
    ensures
        part_head().len() == 51,
        part_head()[50] == 32,
        part_head()[9] == 67,
        part_head()[35] == 67,
        forall|m: int| 0 <= m < 51 && #[trigger] part_head()[m] == 13 ==> m == 7 || m == 33,
{
    let head = "--frame\r\nContent-Type: image/jpeg\r\nContent-Length: "@;
    reveal_strlit("--frame\r\nContent-Type: image/jpeg\r\nContent-Length: ");
    vstd::utf8::is_ascii_chars_encode_utf8(head);
    assert forall|m: int| 0 <= m < 51 && #[trigger] part_head()[m] == 13 implies m == 7 || m == 33 by {
        assert(part_head()[m] == head[m] as u8);
        assert('\r' == head[m]);
        assert(m == 0 || m == 1 || m == 2 || m == 3 || m == 4 || m == 5 || m == 6 || m == 7 || m == 8 || m == 9
            || m == 10 || m == 11 || m == 12 || m == 13 || m == 14 || m == 15 || m == 16 || m == 17 || m == 18 || m == 19
            || m == 20 || m == 21 || m == 22 || m == 23 || m == 24 || m == 25 || m == 26 || m == 27 || m == 28 || m == 29
            || m == 30 || m == 31 || m == 32 || m == 33 || m == 34 || m == 35 || m == 36 || m == 37 || m == 38 || m == 39
            || m == 40 || m == 41 || m == 42 || m == 43 || m == 44 || m == 45 || m == 46 || m == 47 || m == 48 || m == 49
            || m == 50);
    }
}

proof fn lemma_first_digit(n: nat)
    ensures
        n > 0 ==> decimal(n)[0] != 48,
        n == 0 ==> decimal(n).len() == 1,
    decreases n,
{
    lemma_decimal(n);
    if n >= 10 {
        lemma_first_digit(n / 10);
        lemma_decimal(n / 10);
    }
}

/// A viewer gets every frame back as it is, byte by byte, whatever follows in the stream.
pub proof fn parts_read_back(jpeg: Seq<u8>, rest: Seq<u8>)
    ensures
        read_part(part(jpeg) + rest) == (jpeg, rest),
{
    lemma_part_layout(jpeg, rest);
    let stream = part(jpeg) + rest;
    assert(read_part(stream).0 =~= jpeg);
    assert(read_part(stream).1 =~= rest);
}

proof fn lemma_part_layout(jpeg: Seq<u8>, rest: Seq<u8>)
    ensures
        ({
            let stream = part(jpeg) + rest;
            let digits = decimal(jpeg.len());
            let n = 51 + digits.len() as int;
            &&& headers_end(stream, 0) == n
            &&& stream.take(51) == part_head()
            &&& stream.subrange(51, n) == digits
            &&& last_word(stream.take(n)) == digits
            &&& read_decimal(digits) == jpeg.len()
            &&& stream.len() == n + 4 + jpeg.len() + 2 + rest.len()
            &&& stream.subrange(n + 4, n + 4 + jpeg.len()) == jpeg
            &&& stream.subrange(n + 4 + jpeg.len(), n + 6 + jpeg.len()) == line_end()
            &&& stream.skip(n + 4 + jpeg.len() + 2) == rest
        }),
{
    lemma_part_head();
    lemma_separators();
    lemma_decimal(jpeg.len());
    let head = part_head();
    let digits = decimal(jpeg.len());
    let n = 51 + digits.len() as int;
    let stream = part(jpeg) + rest;
    assert(stream.take(51) =~= head);
    assert(stream.subrange(51, n) =~= digits);
    assert(stream.take(n) =~= head + digits);
    lemma_last_word(head, digits);
    assert(stream.subrange(n, n + 4) =~= blank_line());
    assert(stream[n] == blank_line()[0] && stream[n + 1] == blank_line()[1] && stream[n + 2] == blank_line()[2]
        && stream[n + 3] == blank_line()[3]);
    assert forall|m: int| 0 <= m < n implies !blank_line_at(stream, m) by {
        if m < 51 {
            assert(stream[m] == head[m]);
            if head[m] == 13 {
                assert(stream[m + 2] == head[m + 2]);
            }
        } else {
            assert(stream[m] == digits[m - 51]);
        }
    }
    lemma_headers_end(stream, 0, n);
    assert(stream.subrange(n + 4, n + 4 + jpeg.len()) =~= jpeg);
    assert(stream.subrange(n + 4 + jpeg.len(), n + 6 + jpeg.len()) =~= line_end());
    assert(stream.skip(n + 4 + jpeg.len() + 2) =~= rest);
}

/// Every part has the same headers, whatever its frame: the boundary, the kind of the frame, and its
/// length in plain digits without leading zeros. After the frame comes a line end, and that is all.
pub proof fn headers_do_not_depend_on_the_frame(jpeg: Seq<u8>)
    ensures
        ({
            let n = headers_end(part(jpeg), 0);
            &&& 51 < n
            &&& part(jpeg).take(51) == text("--frame\r\nContent-Type: image/jpeg\r\nContent-Length: "@)
            &&& forall|i: int| 51 <= i < n ==> 48 <= #[trigger] part(jpeg)[i] <= 57
            &&& read_decimal(part(jpeg).subrange(51, n)) == jpeg.len()
            &&& n > 52 ==> part(jpeg)[51] != 48
            &&& part(jpeg).len() == n + 4 + jpeg.len() + 2
            &&& part(jpeg)[n + 4 + jpeg.len()] == 13
            &&& part(jpeg)[n + 4 + jpeg.len() + 1] == 10
        }),
{
    let rest = Seq::<u8>::empty();
    lemma_part_layout(jpeg, rest);
    assert(part(jpeg) + rest =~= part(jpeg));
    lemma_decimal(jpeg.len());
    lemma_first_digit(jpeg.len());
    lemma_separators();
    let digits = decimal(jpeg.len());
    let n = 51 + digits.len() as int;
    assert forall|i: int| 51 <= i < n implies 48 <= #[trigger] part(jpeg)[i] <= 57 by {
        assert(part(jpeg)[i] == part(jpeg).subrange(51, n)[i - 51]);
        assert(part(jpeg)[i] == digits[i - 51]);
    }
    assert(part(jpeg)[51] == part(jpeg).subrange(51, n)[0]);
    let last = part(jpeg).subrange(n + 4 + jpeg.len(), n + 6 + jpeg.len());
    assert(last[0] == part(jpeg)[n + 4 + jpeg.len()]);
    assert(last[1] == part(jpeg)[n + 4 + jpeg.len() + 1]);
}

} // verus!
