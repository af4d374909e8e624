//! The line format of a segment file: one record per line, each line ended by
//! a newline.

use vstd::prelude::*;
use vstd::utf8::{decode_utf8, encode_utf8, valid_utf8};

use crate::text::{is_white_space, trim, trim_end, trimmed};

verus! {

/// The byte that ends a line.
pub const NEWLINE: u8 = 10;

/// The byte that is dropped where it stands right before a newline.
pub const CARRIAGE_RETURN: u8 = 13;

/// `line` without one carriage return at its end.
pub open spec fn without_carriage_return(line: Seq<u8>) -> Seq<u8> {
    if line.len() > 0 && line.last() == CARRIAGE_RETURN {
        line.drop_last()
    } else {
        line
    }
}

/// The bytes after the last newline.
pub open spec fn unterminated(bytes: Seq<u8>) -> Seq<u8>
    decreases bytes.len(),
{
    if bytes.len() == 0 || bytes.last() == NEWLINE {
        Seq::empty()
    } else {
        unterminated(bytes.drop_last()).push(bytes.last())
    }
}

/// The lines that a newline ends, in order.
pub open spec fn terminated_lines(bytes: Seq<u8>) -> Seq<Seq<u8>>
    decreases bytes.len(),
{
    if bytes.len() == 0 {
        Seq::empty()
    } else if bytes.last() == NEWLINE {
        terminated_lines(bytes.drop_last()).push(
            without_carriage_return(unterminated(bytes.drop_last())),
        )
    } else {
        terminated_lines(bytes.drop_last())
    }
}

/// All lines of a file, in order; bytes after the last newline are a line too.
pub open spec fn lines_of(bytes: Seq<u8>) -> Seq<Seq<u8>> {
    if unterminated(bytes).len() == 0 {
        terminated_lines(bytes)
    } else {
        terminated_lines(bytes).push(unterminated(bytes))
    }
}

/// Whether a line holds nothing but white space.
pub open spec fn is_blank(line: Seq<char>) -> bool {
    trimmed(line).len() == 0
}

/// The text of a line that may hold a record: one that is valid UTF-8 and not
/// blank.
pub open spec fn record_text(line: Seq<u8>) -> Option<Seq<char>> {
    if valid_utf8(line) && !is_blank(decode_utf8(line)) {
        Some(decode_utf8(line))
    } else {
        None
    }
}

/// The text lines of a file that may hold a record, in order.
pub open spec fn record_lines_of(bytes: Seq<u8>) -> Seq<Seq<char>> {
    lines_of(bytes).filter_map(|line: Seq<u8>| record_text(line))
}

/// The views of a list of byte strings.
pub open spec fn byte_views(lines: Seq<Vec<u8>>) -> Seq<Seq<u8>> {
    lines.map_values(|line: Vec<u8>| line@)
}

/// The views of a list of texts.
pub open spec fn text_views(texts: Seq<String>) -> Seq<Seq<char>> {
    texts.map_values(|text: String| text@)
}

/// Splits a file into its lines.
pub fn split_lines(bytes: &[u8]) -> (r: Vec<Vec<u8>>)
    ensures
        byte_views(r@) == lines_of(bytes@),
{
    let mut lines: Vec<Vec<u8>> = Vec::new();
    let mut rest: Vec<u8> = Vec::new();
    proof {
        assert(byte_views(lines@) =~= terminated_lines(bytes@.take(0)));
    }
    for i in 0..bytes.len()
        invariant
            byte_views(lines@) == terminated_lines(bytes@.take(i as int)),
            rest@ == unterminated(bytes@.take(i as int)),
    {
        let b: u8 = bytes[i];
        proof {
            assert(bytes@.take(i + 1).drop_last() =~= bytes@.take(i as int));
            assert(bytes@.take(i + 1).last() == b);
        }
        if b == NEWLINE {
            if rest.len() > 0 && rest[rest.len() - 1] == CARRIAGE_RETURN {
                let _ = rest.pop();
            }
            let ghost before = lines@;
            let ghost line = rest@;
            lines.push(rest);
            rest = Vec::new();
            proof {
                assert(byte_views(lines@) =~= byte_views(before).push(line));
            }
        } else {
            rest.push(b);
        }
    }
    proof {
        assert(bytes@.take(bytes@.len() as int) =~= bytes@);
    }
    if rest.len() > 0 {
        let ghost before = lines@;
        let ghost line = rest@;
        lines.push(rest);
        proof {
            assert(byte_views(lines@) =~= byte_views(before).push(line));
        }
    }
    lines
}

/// How many lines a file has.
pub fn count_lines(bytes: &[u8]) -> (n: usize)
    ensures
        n == lines_of(bytes@).len(),
{
    let lines: Vec<Vec<u8>> = split_lines(bytes);
    proof {
        assert(byte_views(lines@).len() == lines@.len());
    }
    lines.len()
}

/// Trusted: `String::from_utf8` gives the text that the bytes encode, and
/// gives none exactly where the bytes are not valid UTF-8.
#[verifier::external_body]
fn text_of(bytes: Vec<u8>) -> (r: Option<String>)
    ensures
        r is Some <==> valid_utf8(bytes@),
        r matches Some(s) ==> s@ == decode_utf8(bytes@),
{
    String::from_utf8(bytes).ok()
}

/// The text lines of a file that may hold a record, in order. Blank lines and
/// lines that are not valid UTF-8 are passed over: a line that was torn in the
/// middle of a character must not make the rest of the file unreadable.
pub fn record_lines(bytes: &[u8]) -> (r: Vec<String>)
    ensures
        text_views(r@) == record_lines_of(bytes@),
{
    let lines: Vec<Vec<u8>> = split_lines(bytes);
    let ghost all = lines_of(bytes@);
    let ghost read = |line: Seq<u8>| record_text(line);
    let ghost source = lines@;
    let mut out: Vec<String> = Vec::new();
    proof {
        assert(byte_views(source).len() == source.len());
        assert(all.take(0) =~= Seq::<Seq<u8>>::empty());
        assert(text_views(out@) =~= all.take(0).filter_map(read));
    }
    for raw in it: lines
        invariant
            it.seq() == source,
            byte_views(source) == all,
            read == (|line: Seq<u8>| record_text(line)),
            text_views(out@) == all.take(it.index() as int).filter_map(read),
    {
        let ghost i = it.index() as int;
        proof {
            assert(byte_views(source).len() == source.len());
            assert(raw@ == byte_views(source)[i]);
            all.lemma_filter_map_take_succ(read, i);
        }
        if let Some(line) = text_of(raw) {
            if !trim(line.as_str()).is_empty() {
                let ghost before = out@;
                let ghost shown = line@;
                out.push(line);
                proof {
                    assert(text_views(out@) =~= text_views(before).push(shown));
                }
            }
        }
    }
    proof {
        assert(byte_views(source).len() == source.len());
        assert(all.take(source.len() as int) =~= all);
    }
    out
}

/// Whether a file is empty or ends with a newline, so that no fragment of a
/// line stands at its end.
pub fn ends_whole(bytes: &[u8]) -> (r: bool)
    ensures
        r == is_whole(bytes@),
{
    bytes.len() == 0 || bytes[bytes.len() - 1] == NEWLINE
}

/// A record as it is written to a file: its text and the newline that ends the
/// line. Where the file is not whole, a newline goes first, so that the record
/// does not become part of the fragment.
pub open spec fn framed(record: Seq<char>, whole: bool) -> Seq<char> {
    if whole {
        record.push('\n')
    } else {
        seq!['\n'] + record.push('\n')
    }
}

/// A record as it is written to a file, where `whole` tells that the file has
/// no fragment of a line at its end.
pub fn frame_line(record: String, whole: bool) -> (r: String)
    ensures
        r@ == framed(record@, whole),
{
    let mut line: String = String::new();
    proof {
        reveal_strlit("\n");
    }
    if !whole {
        line.append("\n");
    }
    line.append(record.as_str());
    line.append("\n");
    proof {
        assert(line@ =~= framed(record@, whole));
    }
    line
}

/// Whether a text can be written as one line and read back: it is not blank,
/// holds no newline and ends in no carriage return.
pub open spec fn is_line_text(text: Seq<char>) -> bool {
    &&& !is_blank(text)
    &&& !text.contains('\n')
    &&& text.last() != '\r'
}

/// Whether a file is empty or ends with a newline, so that no fragment of a
/// line stands at its end.
pub open spec fn is_whole(file: Seq<u8>) -> bool {
    unterminated(file).len() == 0
}

/// A file once a fragment at its end, if there is one, is closed by a newline.
pub open spec fn closed(file: Seq<u8>) -> Seq<u8> {
    if is_whole(file) {
        file
    } else {
        file.push(NEWLINE)
    }
}

/// The bytes that are written to a file to add a record to it.
pub open spec fn line_for(file: Seq<u8>, record: Seq<char>) -> Seq<u8> {
    encode_utf8(framed(record, is_whole(file)))
}

proof fn lemma_encode_concat(a: Seq<char>, b: Seq<char>)
    ensures
        encode_utf8(a + b) == encode_utf8(a) + encode_utf8(b),
    decreases a.len(),
{
    if a.len() == 0 {
        assert(a + b =~= b);
        assert(encode_utf8(a) + encode_utf8(b) =~= encode_utf8(b));
    } else {
        lemma_encode_concat(a.drop_first(), b);
        assert((a + b).drop_first() =~= a.drop_first() + b);
        assert(encode_utf8(a + b) =~= encode_utf8(a) + encode_utf8(b));
    }
}

proof fn lemma_encoded_char(c: char)
    ensures
        ({
            let e = encode_utf8(seq![c]);
            &&& e.len() > 0
            &&& (c as u32) < 0x80 ==> e == seq![c as u8]
            &&& forall|i: int|
                0 <= i < e.len() ==> (#[trigger] e[i] == NEWLINE ==> c == '\n') && (e[i]
                    == CARRIAGE_RETURN ==> c == '\r')
        }),
{
    let v = c as u32;
    let e = encode_utf8(seq![c]);
    vstd::utf8::char_is_scalar(c);
    assert(e =~= vstd::utf8::encode_scalar(v)) by {
        assert(seq![c].drop_first() =~= Seq::<char>::empty());
        reveal_with_fuel(encode_utf8, 2);
    }
    if v < 0x80 {
        assert((v & 0x7f) as u8 == v as u8) by (bit_vector)
            requires
                v < 0x80,
        ;
        assert(e =~= seq![c as u8]);
        assert(c as u8 == v);
    } else {
        assert((0xC0u8 | ((v >> 6) & 0x1F) as u8) >= 0x80u8) by (bit_vector);
        assert((0xE0u8 | ((v >> 12) & 0x0F) as u8) >= 0x80u8) by (bit_vector);
        assert((0xF0u8 | ((v >> 18) & 0x7) as u8) >= 0x80u8) by (bit_vector);
        assert((0x80u8 | (v & 0x3F) as u8) >= 0x80u8) by (bit_vector);
        assert((0x80u8 | ((v >> 6) & 0x3F) as u8) >= 0x80u8) by (bit_vector);
        assert((0x80u8 | ((v >> 12) & 0x3F) as u8) >= 0x80u8) by (bit_vector);
    }
}

proof fn lemma_encoded_text(line: Seq<char>)
    requires
        !line.contains('\n'),
    ensures
        !encode_utf8(line).contains(NEWLINE),
        line.len() > 0 ==> encode_utf8(line).len() > 0,
        line.len() > 0 && line.last() != '\r' ==> encode_utf8(line).last() != CARRIAGE_RETURN,
    decreases line.len(),
{
    if line.len() > 0 {
        let front = line.drop_last();
        let c = line.last();
        assert(line =~= front + seq![c]);
        assert forall|i: int| 0 <= i < front.len() implies front[i] != '\n' by {
            assert(front[i] == line[i]);
        }
        lemma_encoded_text(front);
        lemma_encode_concat(front, seq![c]);
        lemma_encoded_char(c);
        let e = encode_utf8(seq![c]);
        assert(encode_utf8(line) == encode_utf8(front) + e);
        assert(line[line.len() - 1] == c);
        assert forall|i: int| 0 <= i < encode_utf8(line).len() implies encode_utf8(line)[i]
            != NEWLINE by {
            if i < encode_utf8(front).len() {
                assert(encode_utf8(line)[i] == encode_utf8(front)[i]);
            } else {
                assert(encode_utf8(line)[i] == e[i - encode_utf8(front).len()]);
                assert(line.contains(c));
            }
        }
        assert(encode_utf8(line).last() == e.last());
    }
}

proof fn lemma_lines_of_extended(file: Seq<u8>, bytes: Seq<u8>)
    requires
        unterminated(file).len() == 0,
        !bytes.contains(NEWLINE),
    ensures
        unterminated(file + bytes) == bytes,
        terminated_lines(file + bytes) == terminated_lines(file),
    decreases bytes.len(),
{
    if bytes.len() == 0 {
        assert(file + bytes =~= file);
        assert(unterminated(file) =~= bytes);
    } else {
        let front = bytes.drop_last();
        assert forall|i: int| 0 <= i < front.len() implies front[i] != NEWLINE by {
            assert(front[i] == bytes[i]);
        }
        lemma_lines_of_extended(file, front);
        assert((file + bytes).drop_last() =~= file + front);
        assert(bytes[bytes.len() - 1] != NEWLINE);
        assert(front.push(bytes.last()) =~= bytes);
    }
}

proof fn lemma_records_of_pushed_line(lines: Seq<Seq<u8>>, line: Seq<u8>)
    ensures
        lines.push(line).filter_map(|l: Seq<u8>| record_text(l)) == lines.filter_map(
            |l: Seq<u8>| record_text(l),
        ) + match record_text(line) {
            Some(text) => seq![text],
            None => Seq::empty(),
        },
{
    let read = |l: Seq<u8>| record_text(l);
    let pushed = lines.push(line);
    pushed.lemma_filter_map_take_succ(read, lines.len() as int);
    assert(pushed.take(lines.len() as int) =~= lines);
    assert(pushed.take(lines.len() + 1int) =~= pushed);
}

proof fn lemma_whole_line(record: Seq<char>)
    requires
        is_line_text(record),
    ensures
        encode_utf8(record.push('\n')) == encode_utf8(record).push(NEWLINE),
        encode_utf8(seq!['\n']) == seq![NEWLINE],
        !encode_utf8(record).contains(NEWLINE),
        encode_utf8(record).len() > 0,
        encode_utf8(record).last() != CARRIAGE_RETURN,
        record_text(encode_utf8(record)) == Some(record),
{
    lemma_encoded_text(record);
    assert(record.push('\n') =~= record + seq!['\n']);
    lemma_encode_concat(record, seq!['\n']);
    lemma_encoded_char('\n');
    assert(encode_utf8(seq!['\n']) =~= seq![NEWLINE]);
    assert(encode_utf8(record) + seq![NEWLINE] =~= encode_utf8(record).push(NEWLINE));
    vstd::utf8::encode_utf8_valid_utf8(record);
    vstd::utf8::encode_utf8_decode_utf8(record);
}

/// The bytes of a line hold the text that was written as that line.
pub proof fn law_line_text_is_read_back(text: Seq<char>)
    requires
        is_line_text(text),
    ensures
        record_text(encode_utf8(text)) == Some(text),
{
    lemma_whole_line(text);
}

/// The bytes of a framed record.
pub proof fn law_framed_bytes(record: Seq<char>, whole: bool)
    requires
        is_line_text(record),
    ensures
        encode_utf8(framed(record, whole)) == if whole {
            encode_utf8(record).push(NEWLINE)
        } else {
            seq![NEWLINE] + encode_utf8(record).push(NEWLINE)
        },
{
    lemma_whole_line(record);
    if !whole {
        lemma_encode_concat(seq!['\n'], record.push('\n'));
    }
}

/// A fragment that is closed by a newline is one line, as it was before, and
/// closing takes none of the lines before it.
pub proof fn law_closing_keeps_lines(file: Seq<u8>)
    ensures
        is_whole(closed(file)),
        lines_of(closed(file)).len() == lines_of(file).len(),
        is_whole(file) ==> lines_of(file) == terminated_lines(file),
        !is_whole(file) ==> lines_of(file) == terminated_lines(file).push(unterminated(file)),
        !is_whole(file) ==> lines_of(closed(file)) == terminated_lines(file).push(
            without_carriage_return(unterminated(file)),
        ),
{
    if !is_whole(file) {
        assert(closed(file).drop_last() =~= file);
        assert(closed(file).last() == NEWLINE);
    }
}

/// Whatever a file ends with, a record that is written to it is read back as
/// one more line, behind a fragment too. The file is whole then.
pub proof fn law_written_record_is_read_back(file: Seq<u8>, record: Seq<char>)
    requires
        is_line_text(record),
    ensures
        ({
            let after = file + line_for(file, record);
            &&& lines_of(after) == lines_of(closed(file)).push(encode_utf8(record))
            &&& record_lines_of(after) == record_lines_of(closed(file)).push(record)
            &&& lines_of(after).len() == lines_of(file).len() + 1
            &&& is_whole(after)
        }),
{
    let before = closed(file);
    let after = file + line_for(file, record);
    let line = encode_utf8(record);
    law_framed_bytes(record, is_whole(file));
    lemma_whole_line(record);
    law_closing_keeps_lines(file);
    assert(after =~= before + line.push(NEWLINE));
    lemma_lines_of_extended(before, line);
    assert(after.drop_last() =~= before + line);
    assert(after.last() == NEWLINE);
    lemma_records_of_pushed_line(lines_of(before), line);
    assert(record_lines_of(before) + seq![record] =~= record_lines_of(before).push(record));
}

/// A record that is written to a whole file adds its line and a newline, and
/// nothing else.
pub proof fn law_whole_file_gains_one_line(file: Seq<u8>, record: Seq<char>)
    requires
        is_whole(file),
        is_line_text(record),
    ensures
        line_for(file, record) == encode_utf8(record).push(NEWLINE),
        !encode_utf8(record).contains(NEWLINE),
{
    law_framed_bytes(record, true);
    lemma_whole_line(record);
}

/// What is left of a line that was cut off in the middle of a write, whatever
/// its bytes are, adds at most one line behind the whole ones and takes none
/// of the records before it.
pub proof fn law_torn_line_leaves_earlier_records(file: Seq<u8>, torn: Seq<u8>)
    requires
        unterminated(file).len() == 0,
        !torn.contains(NEWLINE),
    ensures
        torn.len() == 0 ==> lines_of(file + torn) == lines_of(file),
        torn.len() > 0 ==> lines_of(file + torn) == lines_of(file).push(torn),
        record_lines_of(file).is_prefix_of(record_lines_of(file + torn)),
{
    lemma_lines_of_extended(file, torn);
    lemma_records_of_pushed_line(lines_of(file), torn);
}

/// A write that failed on the way leaves the file as it was, or with its lines
/// closed and at most a fragment behind them.
pub proof fn law_failed_write_leaves_a_fragment(
    file: Seq<u8>,
    record: Seq<char>,
    part: Seq<u8>,
)
    requires
        is_line_text(record),
        part.is_prefix_of(line_for(file, record)),
        part.len() < line_for(file, record).len(),
    ensures
        part.len() == 0 ==> file + part == file,
        part.len() > 0 ==> lines_of(file + part) == lines_of(closed(file)) + if is_whole(
            file + part,
        ) {
            Seq::<Seq<u8>>::empty()
        } else {
            seq![unterminated(file + part)]
        },
        lines_of(file + part).len() <= lines_of(file).len() + 1,
{
    let before = closed(file);
    let whole = is_whole(file);
    let line = encode_utf8(record);
    let bytes = line_for(file, record);
    law_framed_bytes(record, whole);
    lemma_whole_line(record);
    law_closing_keeps_lines(file);
    if part.len() == 0 {
        assert(file + part =~= file);
    } else {
        let rest = if whole {
            part
        } else {
            part.drop_first()
        };
        assert forall|i: int| 0 <= i < rest.len() implies rest[i] != NEWLINE by {
            assert(part == bytes.subrange(0, part.len() as int));
            if whole {
                assert(rest[i] == line[i]);
            } else {
                assert(rest[i] == part[i + 1]);
                assert(part[i + 1] == bytes[i + 1]);
                assert(rest[i] == line[i]);
            }
        }
        assert(file + part =~= before + rest) by {
            if !whole {
                assert(part[0] == bytes[0]);
            }
        }
        lemma_lines_of_extended(before, rest);
        law_closing_keeps_lines(file + part);
        assert(lines_of(file + part) =~= lines_of(before) + if is_whole(file + part) {
            Seq::<Seq<u8>>::empty()
        } else {
            seq![unterminated(file + part)]
        });
    }
}

/// A file is cut into lines at its newlines: behind whole lines, one more line
/// and its newline add that line, without a carriage return at its end, and
/// bytes without a newline add a line as they are. An empty file has none.
pub proof fn law_lines_are_cut_at_newlines(file: Seq<u8>, line: Seq<u8>)
    requires
        file.len() == 0 || file.last() == 10,
        forall|i: int| 0 <= i < line.len() ==> (#[trigger] line[i]) != 10,
    ensures
        lines_of(Seq::empty()).len() == 0,
        line.len() > 0 && line.last() == 13 ==> lines_of((file + line).push(10)) == lines_of(
            file,
        ).push(line.drop_last()),
        line.len() == 0 || line.last() != 13 ==> lines_of((file + line).push(10)) == lines_of(
            file,
        ).push(line),
        line.len() > 0 ==> lines_of(file + line) == lines_of(file).push(line),
        is_whole((file + line).push(10)),
        is_whole(file + line) <==> line.len() == 0,
{
    assert(is_whole(file));
    lemma_lines_of_extended(file, line);
    let ended = (file + line).push(NEWLINE);
    assert(ended.drop_last() =~= file + line);
    assert(ended.last() == NEWLINE);
    assert(lines_of(Seq::<u8>::empty()) =~= Seq::<Seq<u8>>::empty());
}

proof fn lemma_trimmed_keeps_marks(s: Seq<char>)
    ensures
        trim_end(s).len() == 0 <==> forall|i: int|
            0 <= i < s.len() ==> is_white_space(#[trigger] s[i]),
    decreases s.len(),
{
    if s.len() > 0 {
        let front = s.drop_last();
        lemma_trimmed_keeps_marks(front);
        if is_white_space(s.last()) {
            if trim_end(s).len() == 0 {
                assert forall|i: int| 0 <= i < s.len() implies is_white_space(#[trigger] s[i]) by {
                    if i < front.len() {
                        assert(is_white_space(front[i]));
                    }
                }
            } else {
                let i = choose|i: int| 0 <= i < front.len() && !is_white_space(front[i]);
                assert(!is_white_space(s[i]));
            }
        } else {
            assert(!is_white_space(s[s.len() - 1]));
        }
    }
}

/// A line is blank exactly where all of its characters are white space.
pub proof fn law_blank_is_all_white_space(s: Seq<char>)
    ensures
        is_blank(s) <==> forall|i: int| 0 <= i < s.len() ==> is_white_space(#[trigger] s[i]),
    decreases s.len(),
{
    if s.len() > 0 && is_white_space(s[0]) {
        let rest = s.drop_first();
        law_blank_is_all_white_space(rest);
        if is_blank(s) {
            assert forall|i: int| 0 <= i < s.len() implies is_white_space(#[trigger] s[i]) by {
                if i > 0 {
                    assert(is_white_space(rest[i - 1]));
                }
            }
        } else {
            let i = choose|i: int| 0 <= i < rest.len() && !is_white_space(rest[i]);
            assert(!is_white_space(s[i + 1]));
        }
    } else {
        lemma_trimmed_keeps_marks(s);
    }
}

/// A line may hold a record exactly where it is valid UTF-8 and has a character
/// that is no white space, and then it is taken as it is.
pub proof fn law_record_lines_are_text(line: Seq<u8>)
    ensures
        record_text(line) is Some <==> valid_utf8(line) && exists|i: int|
            0 <= i < decode_utf8(line).len() && !is_white_space(#[trigger] decode_utf8(line)[i]),
        record_text(line) matches Some(text) ==> text == decode_utf8(line),
{
    law_blank_is_all_white_space(decode_utf8(line));
}

/// The lines of a file that may hold a record come in the order of the file:
/// one more line adds its text behind the others, or nothing where it holds no
/// record. This is said of a file that ends with a newline or is empty.
pub proof fn law_record_lines_follow_the_file(file: Seq<u8>, line: Seq<u8>)
    requires
        file.len() == 0 || file.last() == 10,
        line.len() > 0 ==> line.last() != 13,
        forall|i: int| 0 <= i < line.len() ==> (#[trigger] line[i]) != 10,
    ensures
        record_lines_of(Seq::empty()).len() == 0,
        ({
            let after = record_lines_of((file + line).push(10));
            let text = decode_utf8(line);
            let holds = valid_utf8(line) && exists|i: int|
                0 <= i < text.len() && !is_white_space(#[trigger] text[i]);
            &&& holds ==> after == record_lines_of(file).push(text)
            &&& !holds ==> after == record_lines_of(file)
        }),
{
    law_lines_are_cut_at_newlines(file, line);
    law_record_lines_are_text(line);
    lemma_records_of_pushed_line(lines_of(file), line);
    assert(record_lines_of(file) + Seq::<Seq<char>>::empty() =~= record_lines_of(file));
    assert(record_lines_of(file) + seq![decode_utf8(line)] =~= record_lines_of(file).push(
        decode_utf8(line),
    ));
}

/// A framed record is its text with a newline behind it, and with one more
/// before it where the file is not whole.
pub proof fn law_framing_adds_newlines(record: Seq<char>)
    ensures
        framed(record, true).len() == record.len() + 1,
        framed(record, true).take(record.len() as int) == record,
        framed(record, true).last() == '\n',
        framed(record, false) == seq!['\n'] + framed(record, true),
{
    assert(framed(record, true).take(record.len() as int) =~= record);
}

/// Lists of texts and of byte strings in contracts have one item for each of
/// the list, in its place.
pub proof fn law_lists_keep_their_places(lines: Seq<Vec<u8>>, texts: Seq<String>)
    ensures
        byte_views(lines).len() == lines.len(),
        forall|i: int| 0 <= i < lines.len() ==> #[trigger] byte_views(lines)[i] == lines[i]@,
        text_views(texts).len() == texts.len(),
        forall|i: int| 0 <= i < texts.len() ==> #[trigger] text_views(texts)[i] == texts[i]@,
{
}

/// Of two files of which one has one line more at its end, that one has the
/// text of this line more, where it is valid UTF-8 and not all white space, and
/// else the same records.
pub proof fn law_one_line_is_at_most_one_record(file: Seq<u8>, longer: Seq<u8>, line: Seq<u8>)
    requires
        lines_of(longer) == lines_of(file).push(line),
    ensures
        ({
            let text = decode_utf8(line);
            let holds = valid_utf8(line) && exists|i: int|
                0 <= i < text.len() && !is_white_space(#[trigger] text[i]);
            &&& holds ==> record_lines_of(longer) == record_lines_of(file).push(text)
            &&& !holds ==> record_lines_of(longer) == record_lines_of(file)
        }),
{
    law_record_lines_are_text(line);
    lemma_records_of_pushed_line(lines_of(file), line);
    assert(record_lines_of(file) + Seq::<Seq<char>>::empty() =~= record_lines_of(file));
    assert(record_lines_of(file) + seq![decode_utf8(line)] =~= record_lines_of(file).push(
        decode_utf8(line),
    ));
}

} // verus!
