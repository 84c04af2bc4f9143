use vstd::prelude::*;
use vstd::string::StrSliceExecFns;
use vstd::string::StringExecFns;
use vstd::utf8::*;

verus! {

use crate::err::Error;
use crate::text::find_first;
use crate::text::lemma_find_first;
use crate::text::lemma_find_first_at;

/// A field may not contain the record separators: the protocol has no
/// escaping, so comma, carriage return and line feed are reserved.
pub open spec fn sep_free(f: Seq<char>) -> bool {
    forall|i: int| 0 <= i < f.len() ==> f[i] != ',' && f[i] != '\r' && f[i] != '\n'
}

/// A well-formed frame: at least the tag field, and every field free of
/// the record separators.
pub open spec fn frame_ok(fields: Seq<Seq<char>>) -> bool {
    fields.len() > 0 && forall|i: int| 0 <= i < fields.len() ==> sep_free(#[trigger] fields[i])
}

/// The fields of a frame joined with commas into one line.
pub open spec fn spec_join(fields: Seq<Seq<char>>) -> Seq<char>
    decreases fields.len(),
{
    if fields.len() == 0 {
        Seq::empty()
    } else if fields.len() == 1 {
        fields[0]
    } else {
        fields[0] + seq![','] + spec_join(fields.drop_first())
    }
}

/// A line split at every comma into its fields; a line with no comma is
/// one single field, so the result is never empty.
pub open spec fn spec_split(line: Seq<char>) -> Seq<Seq<char>>
    decreases line.len(),
{
    let p = find_first(line, ',', line.len() as int);
    if 0 <= p < line.len() {
        seq![line.take(p)] + spec_split(line.skip(p + 1))
    } else {
        seq![line]
    }
}

/// The exact bytes that encoding a frame appends to the output: the
/// UTF-8 bytes of the joined line, then carriage return and line feed.
pub open spec fn spec_encoded(fields: Seq<Seq<char>>) -> Seq<u8> {
    encode_utf8(spec_join(fields)) + seq![13u8, 10u8]
}

/// A carriage return immediately before the line feed is stripped.
pub open spec fn strip_cr(line: Seq<u8>) -> Seq<u8> {
    if line.len() > 0 && line.last() == 13u8 {
        line.drop_last()
    } else {
        line
    }
}

/// Splitting undoes joining, as long as no field contains a comma.
pub proof fn lemma_split_join(fields: Seq<Seq<char>>)
    requires
        fields.len() > 0,
        forall|i: int| 0 <= i < fields.len() ==> sep_free(#[trigger] fields[i]),
    ensures
        spec_split(spec_join(fields)) == fields,
    decreases fields.len(),
{
    let line = spec_join(fields);
    if fields.len() == 1 {
        lemma_find_first(line, ',', line.len() as int);
        assert(spec_split(line) =~= fields);
    } else {
        let f0 = fields[0];
        let rest = spec_join(fields.drop_first());
        assert(line =~= f0 + seq![','] + rest);
        assert(line[f0.len() as int] == ',');
        assert(forall|i: int| 0 <= i < f0.len() ==> line[i] == f0[i] && line[i] != ',');
        lemma_find_first_at(line, ',', line.len() as int, f0.len() as int);
        let p = f0.len() as int;
        assert(line.take(p) =~= f0);
        assert(line.skip(p + 1) =~= rest);
        lemma_split_join(fields.drop_first());
        assert(spec_split(line) =~= fields);
    }
}

/// Joining undoes splitting: any line is the comma-join of its fields.
pub proof fn lemma_join_split(line: Seq<char>)
    ensures
        spec_join(spec_split(line)) == line,
        spec_split(line).len() > 0,
    decreases line.len(),
{
    let p = find_first(line, ',', line.len() as int);
    lemma_find_first(line, ',', line.len() as int);
    if 0 <= p < line.len() {
        lemma_join_split(line.skip(p + 1));
        let parts = spec_split(line);
        assert(parts.drop_first() =~= spec_split(line.skip(p + 1)));
        assert(spec_join(parts) =~= line);
    }
}

/// Appending one field to a frame appends a comma and that field to the
/// joined line (or is the whole line, for the first field).
pub proof fn lemma_join_push(fields: Seq<Seq<char>>, f: Seq<char>)
    ensures
        fields.len() == 0 ==> spec_join(fields.push(f)) == f,
        fields.len() > 0 ==> spec_join(fields.push(f)) == spec_join(fields) + seq![','] + f,
    decreases fields.len(),
{
    let pushed = fields.push(f);
    if fields.len() == 0 {
        assert(pushed[0] == f);
    } else if fields.len() == 1 {
        assert(pushed.drop_first() =~= seq![f]);
        assert(spec_join(seq![f]) == f);
        assert(spec_join(pushed) == fields[0] + seq![','] + f);
    } else {
        lemma_join_push(fields.drop_first(), f);
        assert(pushed.drop_first() =~= fields.drop_first().push(f));
        assert(spec_join(pushed) =~= spec_join(fields) + seq![','] + f);
    }
}

/// Values that can render themselves as one field of a command line.
pub trait Serke {
    /// The rendered field, if the value has one.
    spec fn serke_view(&self) -> Option<Seq<char>>;

    fn serke(&self) -> (r: Option<String>)
        ensures
            match r {
                Option::Some(s) => self.serke_view() matches Option::Some(v) && s@ == v,
                Option::None => self.serke_view() is None,
            },
    ;
}

/// Values that can render themselves as a whole comma-joined line.
pub trait JoinParts {
    /// The ordered fields that the rendered line carries.
    spec fn parts(&self) -> Seq<Seq<char>>;

    fn join_parts(&self) -> (r: String)
        ensures
            r@ == spec_join(self.parts()),
    ;
}

impl JoinParts for String {
    /// A string is already a joined line; its fields are what splitting
    /// it yields.
    open spec fn parts(&self) -> Seq<Seq<char>> {
        spec_split(self@)
    }

    fn join_parts(&self) -> (r: String) {
        proof {
            lemma_join_split(self@);
        }
        self.clone()
    }
}

impl JoinParts for Vec<String> {
    open spec fn parts(&self) -> Seq<Seq<char>> {
        self.deep_view()
    }

    fn join_parts(&self) -> (r: String) {
        let ghost dv = self.deep_view();
        let mut r = String::new();
        let mut i: usize = 0;
        while i < self.len()
            invariant
                0 <= i <= self.len(),
                dv == self.deep_view(),
                dv.len() == self.len(),
                r@ == spec_join(dv.take(i as int)),
            decreases self.len() - i,
        {
            proof {
                reveal_strlit(",");
                assert(dv.take(i + 1) =~= dv.take(i as int).push(dv[i as int]));
                lemma_join_push(dv.take(i as int), dv[i as int]);
                assert(","@ =~= seq![',']);
            }
            if i > 0 {
                r.append(",");
            }
            r.append(self[i].as_str());
            proof {
                assert(dv[i as int] == self[i as int]@);
                if i == 0 {
                    assert(dv.take(0int) =~= Seq::<Seq<char>>::empty());
                    assert(r@ =~= spec_join(dv.take(i + 1)));
                } else {
                    assert(r@ =~= spec_join(dv.take(i + 1)));
                }
            }
            i += 1;
        }
        proof {
            assert(dv.take(i as int) =~= dv);
        }
        r
    }
}

/// The framing codec: an incremental scanner over a caller-owned byte
/// buffer, with a maximum line length and a discarding flag used to
/// resynchronize after an over-length line.
#[derive(Debug)]
pub struct Codec {
    next_index: usize,
    max_length: usize,
    is_discarding: bool,
}

/// One step of the scanner over the unconsumed buffer: the discarding
/// flag afterwards, the bytes left unconsumed, and the extracted line,
/// if a whole one was buffered.
pub ghost struct ScanStep {
    pub disc: bool,
    pub rest: Seq<u8>,
    pub line: Option<Seq<u8>>,
}

/// What one decode call does to the buffer, as a function of the
/// discarding flag, the buffered bytes and the maximum line length.
///
/// A line boundary is the first line feed; only the first
/// `max + 1` buffered bytes are searched, and a longer prefix without a
/// boundary switches the scanner into discarding: scanned bytes are
/// dropped and everything up to and including the next boundary is
/// discarded, after which normal framing resumes. A discarded line is
/// never delivered.
pub open spec fn spec_scan(disc: bool, buf: Seq<u8>, max: nat) -> ScanStep
    decreases buf.len(), (if disc { 0int } else { 1int }),
{
    let read_to = if buf.len() <= max + 1 { buf.len() as int } else { (max + 1) as int };
    let nl = find_first(buf, 10u8, read_to);
    if disc {
        if 0 <= nl < buf.len() {
            spec_scan(false, buf.skip(nl + 1), max)
        } else {
            let rest = buf.skip(read_to);
            if rest.len() == 0 {
                ScanStep { disc: true, rest, line: Option::None }
            } else {
                spec_scan(true, rest, max)
            }
        }
    } else {
        if 0 <= nl < buf.len() {
            ScanStep {
                disc: false,
                rest: buf.skip(nl + 1),
                line: Option::Some(strip_cr(buf.take(nl))),
            }
        } else if buf.len() > max {
            spec_scan(true, buf, max)
        } else {
            ScanStep { disc: false, rest: buf, line: Option::None }
        }
    }
}

/// Relies on String::from_utf8: it returns Ok exactly when the input is
/// valid UTF-8 and then yields the decoded text, which vstd's
/// `valid_utf8` and `decode_utf8` describe byte for byte.
#[verifier::external_body]
fn utf8(line: &[u8]) -> (r: Option<String>)
    ensures
        r is Some <==> valid_utf8(line@),
        r matches Option::Some(s) ==> s@ == decode_utf8(line@),
{
    String::from_utf8(line.to_vec()).ok()
}

impl Codec {
    /// Whether the scanner is currently discarding an over-length line.
    pub closed spec fn disc(&self) -> bool {
        self.is_discarding
    }

    /// The maximum accepted line length.
    pub closed spec fn max(&self) -> nat {
        self.max_length as nat
    }

    /// The scan cursor is an optimization only: it marks how far the
    /// buffer has already been searched without finding a boundary, so
    /// it must lie inside both the buffer and the search window, with no
    /// line feed before it.
    pub closed spec fn wf(&self, buf: Seq<u8>) -> bool {
        &&& self.next_index <= buf.len()
        &&& self.next_index as nat <= self.max() + 1
        &&& self.max_length < usize::MAX
        &&& forall|i: int| 0 <= i < self.next_index ==> buf[i] != 10u8
    }

    /// Appending bytes to the buffer never invalidates the scanner.
    pub proof fn lemma_wf_grow(&self, buf: Seq<u8>, ext: Seq<u8>)
        requires
            self.wf(buf),
        ensures
            self.wf(buf + ext),
    {
        assert(forall|i: int| 0 <= i < self.next_index ==> (buf + ext)[i] == buf[i]);
    }

    /// A fresh codec: not discarding, with the protocol's default
    /// 1024-byte maximum line length, valid for any buffer.
    pub fn new() -> (c: Codec)
        ensures
            !c.disc(),
            c.max() == 1024,
            forall|buf: Seq<u8>| c.wf(buf),
    {
        Codec { next_index: 0, max_length: 1024, is_discarding: false }
    }

    /// Appends the encoded frame — the comma-joined fields, then CRLF —
    /// to the output buffer. The codec performs no escaping, so callers
    /// must hand it separator-free fields.
    pub fn encode<T: JoinParts>(&mut self, item: &T, dst: &mut Vec<u8>) -> (r: core::result::Result<
        (),
        Error,
    >)
        requires
            frame_ok(item.parts()),
        ensures
            r == Ok::<(), Error>(()),
            *final(self) == *old(self),
            final(dst)@ == old(dst)@ + spec_encoded(item.parts()),
    {
        let line = item.join_parts();
        let bytes = line.as_str().as_bytes_vec();
        let mut i: usize = 0;
        while i < bytes.len()
            invariant
                0 <= i <= bytes.len(),
                dst@ == old(dst)@ + bytes@.take(i as int),
            decreases bytes.len() - i,
        {
            let b = bytes[i];
            dst.push(b);
            proof {
                assert(bytes@.take(i + 1) =~= bytes@.take(i as int).push(bytes@[i as int]));
                assert(dst@ =~= old(dst)@ + bytes@.take(i + 1));
            }
            i += 1;
        }
        proof {
            assert(bytes@.take(bytes@.len() as int) =~= bytes@);
        }
        dst.push(13);
        dst.push(10);
        proof {
            assert(dst@ =~= old(dst)@ + spec_encoded(item.parts()));
        }
        Ok(())
    }

    /// Pulls the next frame out of the buffered bytes, consuming exactly
    /// the bytes of that frame (or of a discarded over-length line).
    ///
    /// Returns the frame's fields once a whole line is buffered, `None`
    /// while no boundary is buffered yet, and a format error for a line
    /// that is not valid text. An over-length line is silently dropped:
    /// the scanner discards up to the next boundary and then resumes, so
    /// one bad line never tears the stream down.
    pub fn decode(&mut self, src: &mut Vec<u8>) -> (r: core::result::Result<
        Option<Vec<String>>,
        Error,
    >)
        requires
            old(self).wf(old(src)@),
        ensures
            final(self).wf(final(src)@),
            final(self).max() == old(self).max(),
            ({
                let s = spec_scan(old(self).disc(), old(src)@, old(self).max());
                &&& final(self).disc() == s.disc
                &&& final(src)@ == s.rest
                &&& match s.line {
                    Option::Some(l) => if valid_utf8(l) {
                        r matches Ok(Option::Some(fields))
                            && fields.deep_view() == spec_split(decode_utf8(l))
                    } else {
                        r == Err::<Option<Vec<String>>, Error>(Error::Format)
                    },
                    Option::None => r == Ok::<Option<Vec<String>>, Error>(Option::None),
                }
            }),
    {
        let ghost target = spec_scan(old(self).disc(), old(src)@, old(self).max());
        loop
            invariant
                self.wf(src@),
                self.max_length == old(self).max_length,
                target == spec_scan(old(self).disc(), old(src)@, old(self).max()),
                spec_scan(self.disc(), src@, self.max()) == target,
            decreases src@.len(), (if self.is_discarding { 0int } else { 1int }),
        {
            let read_to = if src.len() <= self.max_length { src.len() } else {
                self.max_length + 1
            };
            let ghost buf0 = src@;
            let ghost disc0 = self.is_discarding;
            let nlr = find_nl_in(src, self.next_index, read_to);
            if self.is_discarding {
                match nlr {
                    Option::Some(p) => {
                        vec_drop_front(src, p + 1);
                        self.is_discarding = false;
                        self.next_index = 0;
                        proof {
                            assert(spec_scan(disc0, buf0, self.max()) == spec_scan(
                                false,
                                buf0.skip(p + 1),
                                self.max(),
                            ));
                        }
                    },
                    Option::None => {
                        vec_drop_front(src, read_to);
                        self.next_index = 0;
                        proof {
                            assert(buf0.skip(read_to as int) == src@);
                        }
                        if src.len() == 0 {
                            proof {
                                assert(target == ScanStep {
                                    disc: true,
                                    rest: src@,
                                    line: Option::None::<Seq<u8>>,
                                });
                            }
                            return Ok(None);
                        }
                        proof {
                            assert(spec_scan(disc0, buf0, self.max()) == spec_scan(
                                true,
                                src@,
                                self.max(),
                            ));
                        }
                    },
                }
            } else {
                match nlr {
                    Option::Some(p) => {
                        self.next_index = 0;
                        let mut line = sub_vec(src, 0, p);
                        vec_drop_front(src, p + 1);
                        proof {
                            assert(line@ == buf0.take(p as int));
                        }
                        if line.len() > 0 && line[line.len() - 1] == 13 {
                            line.pop();
                            proof {
                                assert(line@ =~= strip_cr(buf0.take(p as int)));
                            }
                        }
                        proof {
                            assert(line@ == strip_cr(buf0.take(p as int)));
                            assert(target == ScanStep {
                                disc: false,
                                rest: buf0.skip(p + 1),
                                line: Option::Some(strip_cr(buf0.take(p as int))),
                            });
                        }
                        match utf8(line.as_slice()) {
                            Option::Some(text) => {
                                let fields = split_commas(text.as_str());
                                return Ok(Some(fields));
                            },
                            Option::None => {
                                return Err(Error::Format);
                            },
                        }
                    },
                    Option::None => {
                        if src.len() > self.max_length {
                            self.is_discarding = true;
                            proof {
                                assert(spec_scan(disc0, buf0, self.max()) == spec_scan(
                                    true,
                                    buf0,
                                    self.max(),
                                ));
                            }
                        } else {
                            self.next_index = read_to;
                            proof {
                                lemma_find_first(src@, 10u8, read_to as int);
                                assert(target == ScanStep {
                                    disc: false,
                                    rest: src@,
                                    line: Option::None::<Seq<u8>>,
                                });
                            }
                            return Ok(None);
                        }
                    },
                }
            }
        }
    }
}


fn vec_drop_front(v: &mut Vec<u8>, n: usize)
    requires
        n <= old(v).len(),
    ensures
        final(v)@ == old(v)@.skip(n as int),
{
    let mut out: Vec<u8> = Vec::new();
    let mut i: usize = n;
    while i < v.len()
        invariant
            n <= i <= v.len(),
            v@ == old(v)@,
            out@ == old(v)@.subrange(n as int, i as int),
        decreases v.len() - i,
    {
        let b = v[i];
        out.push(b);
        proof {
            assert(out@ =~= old(v)@.subrange(n as int, i + 1));
        }
        i += 1;
    }
    proof {
        assert(old(v)@.subrange(n as int, old(v)@.len() as int) =~= old(v)@.skip(n as int));
    }
    *v = out;
}

fn sub_vec(v: &Vec<u8>, from: usize, to: usize) -> (r: Vec<u8>)
    requires
        from <= to <= v.len(),
    ensures
        r@ == v@.subrange(from as int, to as int),
{
    let mut out: Vec<u8> = Vec::new();
    let mut i: usize = from;
    while i < to
        invariant
            from <= i <= to <= v.len(),
            out@ == v@.subrange(from as int, i as int),
        decreases to - i,
    {
        let b = v[i];
        out.push(b);
        proof {
            assert(out@ =~= v@.subrange(from as int, i + 1));
        }
        i += 1;
    }
    out
}

/// Finds the first line feed in `v[from..to]`, given that none sits
/// before `from`.
fn find_nl_in(v: &Vec<u8>, from: usize, to: usize) -> (r: Option<usize>)
    requires
        from <= to <= v.len(),
        forall|i: int| 0 <= i < from ==> v@[i] != 10u8,
    ensures
        match r {
            Option::Some(p) => from <= p < to && v@[p as int] == 10u8
                && (forall|i: int| 0 <= i < p ==> v@[i] != 10u8)
                && find_first(v@, 10u8, to as int) == p,
            Option::None => find_first(v@, 10u8, to as int) == -1,
        },
{
    let mut j: usize = from;
    while j < to
        invariant
            from <= j <= to <= v.len(),
            forall|i: int| 0 <= i < j ==> v@[i] != 10u8,
        decreases to - j,
    {
        if v[j] == 10 {
            proof {
                lemma_find_first_at(v@, 10u8, to as int, j as int);
            }
            return Some(j);
        }
        j += 1;
    }
    proof {
        lemma_find_first(v@, 10u8, to as int);
    }
    None
}

/// Splits a decoded line at every comma into its field strings.
fn split_commas(s: &str) -> (r: Vec<String>)
    ensures
        r.deep_view() == spec_split(s@),
        r@.len() > 0,
{
    let n = s.unicode_len();
    let mut fields: Vec<String> = Vec::new();
    let mut start: usize = 0;
    let mut i: usize = 0;
    proof {
        assert(s@.skip(0) =~= s@);
        assert(fields.deep_view() =~= Seq::<Seq<char>>::empty());
        assert(fields.deep_view() + spec_split(s@.skip(0)) =~= spec_split(s@));
    }
    while i < n
        invariant
            n == s@.len(),
            0 <= start <= i <= n,
            forall|k: int| start <= k < i ==> s@[k] != ',',
            spec_split(s@) == fields.deep_view() + spec_split(s@.skip(start as int)),
        decreases n - i,
    {
        let c = s.get_char(i);
        if c == ',' {
            let piece = s.substring_char(start, i).to_owned();
            let ghost pre = fields.deep_view();
            proof {
                let tail = s@.skip(start as int);
                assert(tail[i - start] == ',');
                assert(forall|k: int| 0 <= k < i - start ==> tail[k] == s@[k + start]
                    && tail[k] != ',');
                lemma_find_first_at(tail, ',', tail.len() as int, i - start);
                assert(tail.take(i - start) =~= s@.subrange(start as int, i as int));
                assert(tail.skip(i - start + 1) =~= s@.skip(i + 1));
                assert(spec_split(tail) == seq![s@.subrange(start as int, i as int)]
                    + spec_split(s@.skip(i + 1)));
            }
            fields.push(piece);
            proof {
                assert(fields.deep_view() =~= pre.push(piece@));
                assert(fields.deep_view() + spec_split(s@.skip(i + 1)) =~= pre + spec_split(
                    s@.skip(start as int),
                ));
            }
            start = i + 1;
        }
        i += 1;
    }
    let piece = s.substring_char(start, n).to_owned();
    let ghost pre = fields.deep_view();
    proof {
        let tail = s@.skip(start as int);
        assert(forall|k: int| 0 <= k < tail.len() ==> tail[k] == s@[k + start] && tail[k] != ',');
        lemma_find_first(tail, ',', tail.len() as int);
        assert(spec_split(tail) == seq![tail]);
        assert(piece@ =~= tail);
    }
    fields.push(piece);
    proof {
        assert(fields.deep_view() =~= pre.push(piece@));
        assert(fields.deep_view() =~= spec_split(s@));
    }
    fields
}


/// Two characters with the same code point are the same character.
proof fn lemma_char_code(c: char, d: char)
    requires
        c as u32 == d as u32,
    ensures
        c == d,
{
    char_u32_cast(c, c as u32);
    char_u32_cast(d, d as u32);
}

/// UTF-8 keeps byte values below 0x80 for the characters with those
/// code points alone, so a low byte never appears in the encoding of a
/// text that avoids the corresponding character.
pub proof fn lemma_encode_no_low_byte(chars: Seq<char>, b: u8)
    requires
        b < 0x80,
        forall|i: int| 0 <= i < chars.len() ==> (#[trigger] chars[i]) as u32 != b as u32,
    ensures
        forall|j: int|
            0 <= j < encode_utf8(chars).len() ==> #[trigger] encode_utf8(chars)[j] != b,
    decreases chars.len(),
{
    if chars.len() > 0 {
        let s = chars[0] as u32;
        char_is_scalar(chars[0]);
        let head = encode_scalar(s);
        assert forall|j: int| 0 <= j < head.len() implies #[trigger] head[j] != b by {
            if has_width_1_encoding(s) {
                assert(((s & 0x7F) as u8) != b) by (bit_vector)
                    requires
                        s < 0x80,
                        b < 0x80,
                        s != b as u32,
                ;
            } else {
                assert((0xC0u8 | (((s >> 6) & 0x1F) as u8)) != b) by (bit_vector)
                    requires
                        b < 0x80,
                ;
                assert((0xE0u8 | (((s >> 12) & 0x0F) as u8)) != b) by (bit_vector)
                    requires
                        b < 0x80,
                ;
                assert((0xF0u8 | (((s >> 18) & 0x7) as u8)) != b) by (bit_vector)
                    requires
                        b < 0x80,
                ;
                assert((0x80u8 | ((s & 0x3F) as u8)) != b) by (bit_vector)
                    requires
                        b < 0x80,
                ;
                assert((0x80u8 | (((s >> 6) & 0x3F) as u8)) != b) by (bit_vector)
                    requires
                        b < 0x80,
                ;
                assert((0x80u8 | (((s >> 12) & 0x3F) as u8)) != b) by (bit_vector)
                    requires
                        b < 0x80,
                ;
            }
        }
        lemma_encode_no_low_byte(chars.drop_first(), b);
        let rest = encode_utf8(chars.drop_first());
        assert(encode_utf8(chars) == head + rest);
        assert forall|j: int|
            0 <= j < encode_utf8(chars).len() implies #[trigger] encode_utf8(chars)[j] != b by {
            if j < head.len() {
                assert(encode_utf8(chars)[j] == head[j]);
            } else {
                assert(encode_utf8(chars)[j] == rest[j - head.len()]);
            }
        }
    }
}

/// The joined line of a well-formed frame contains no carriage return
/// and no line feed.
proof fn lemma_join_crlf_free(fields: Seq<Seq<char>>)
    requires
        frame_ok(fields),
    ensures
        forall|i: int|
            0 <= i < spec_join(fields).len() ==> #[trigger] spec_join(fields)[i] != '\r'
                && spec_join(fields)[i] != '\n',
    decreases fields.len(),
{
    let line = spec_join(fields);
    if fields.len() == 1 {
        assert(forall|i: int| 0 <= i < line.len() ==> line[i] == fields[0][i]);
    } else {
        assert(frame_ok(fields.drop_first())) by {
            assert(forall|i: int|
                0 <= i < fields.drop_first().len() ==> #[trigger] fields.drop_first()[i]
                    == fields[i + 1]);
        }
        lemma_join_crlf_free(fields.drop_first());
        let f0 = fields[0];
        let rest = spec_join(fields.drop_first());
        assert(line =~= f0 + seq![','] + rest);
        assert forall|i: int| 0 <= i < line.len() implies #[trigger] line[i] != '\r'
            && line[i] != '\n' by {
            if i < f0.len() {
                assert(line[i] == f0[i]);
            } else if i == f0.len() {
                assert(line[i] == ',');
            } else {
                assert(line[i] == rest[i - f0.len() - 1]);
            }
        }
    }
}

/// The scanner, fed an encoded frame followed by anything, delivers
/// exactly that frame's line and leaves exactly the rest unconsumed.
pub proof fn lemma_scan_encoded(fields: Seq<Seq<char>>, tail: Seq<u8>, max: nat)
    requires
        frame_ok(fields),
        encode_utf8(spec_join(fields)).len() + 1 <= max,
    ensures
        ({
            let s = spec_scan(false, spec_encoded(fields) + tail, max);
            &&& s.disc == false
            &&& s.rest == tail
            &&& s.line == Option::Some(encode_utf8(spec_join(fields)))
            &&& valid_utf8(encode_utf8(spec_join(fields)))
            &&& spec_split(decode_utf8(encode_utf8(spec_join(fields)))) == fields
        }),
{
    let line = spec_join(fields);
    let body = encode_utf8(line);
    let buf = spec_encoded(fields) + tail;
    let ll = body.len() as int;
    lemma_join_crlf_free(fields);
    assert('\n' as u32 == 10);
    assert('\r' as u32 == 13);
    assert forall|i: int| 0 <= i < line.len() implies (#[trigger] line[i]) as u32 != 10u8 as u32
        && line[i] as u32 != 13u8 as u32 by {
        if line[i] as u32 == 10 {
            lemma_char_code(line[i], '\n');
        }
        if line[i] as u32 == 13 {
            lemma_char_code(line[i], '\r');
        }
    }
    lemma_encode_no_low_byte(line, 10u8);
    lemma_encode_no_low_byte(line, 13u8);
    assert(buf =~= body + seq![13u8, 10u8] + tail);
    assert(buf[ll] == 13u8);
    assert(buf[ll + 1] == 10u8);
    assert(forall|i: int| 0 <= i < ll ==> buf[i] == body[i]);
    let read_to = if buf.len() <= max + 1 { buf.len() as int } else { (max + 1) as int };
    assert(ll + 1 < read_to);
    lemma_find_first_at(buf, 10u8, read_to, ll + 1);
    assert(buf.take(ll + 1) =~= body + seq![13u8]);
    assert(strip_cr(body + seq![13u8]) =~= body);
    assert(buf.skip(ll + 2) =~= tail);
    encode_utf8_valid_utf8(line);
    encode_utf8_decode_utf8(line);
    lemma_split_join(fields);
}

/// Law: encoding a frame and decoding the result yields the original
/// fields again and consumes exactly the encoded bytes.
pub proof fn lemma_round_trip(fields: Seq<Seq<char>>, max: nat)
    requires
        frame_ok(fields),
        encode_utf8(spec_join(fields)).len() + 1 <= max,
    ensures
        ({
            let s = spec_scan(false, spec_encoded(fields), max);
            &&& s.disc == false
            &&& s.rest.len() == 0
            &&& s.line matches Option::Some(l) && valid_utf8(l)
                && spec_split(decode_utf8(l)) == fields
        }),
{
    assert(spec_encoded(fields) + Seq::<u8>::empty() =~= spec_encoded(fields));
    lemma_scan_encoded(fields, Seq::empty(), max);
}

/// Law: two concatenated encoded frames decode across two scanner
/// steps into the two original frames, in order, never merged.
pub proof fn lemma_two_frames(first: Seq<Seq<char>>, second: Seq<Seq<char>>, max: nat)
    requires
        frame_ok(first),
        frame_ok(second),
        encode_utf8(spec_join(first)).len() + 1 <= max,
        encode_utf8(spec_join(second)).len() + 1 <= max,
    ensures
        ({
            let s1 = spec_scan(false, spec_encoded(first) + spec_encoded(second), max);
            let s2 = spec_scan(false, s1.rest, max);
            &&& s1.disc == false
            &&& s1.line matches Option::Some(l1) && valid_utf8(l1)
                && spec_split(decode_utf8(l1)) == first
            &&& s1.rest == spec_encoded(second)
            &&& s2.disc == false
            &&& s2.rest.len() == 0
            &&& s2.line matches Option::Some(l2) && valid_utf8(l2)
                && spec_split(decode_utf8(l2)) == second
        }),
{
    lemma_scan_encoded(first, spec_encoded(second), max);
    lemma_round_trip(second, max);
}

/// While discarding, the scanner consumes everything through the next
/// boundary and then scans the remainder as if it came fresh.
pub proof fn lemma_scan_discard(junk: Seq<u8>, tail: Seq<u8>, max: nat)
    requires
        forall|i: int| 0 <= i < junk.len() ==> junk[i] != 10u8,
    ensures
        spec_scan(true, junk + seq![10u8] + tail, max) == spec_scan(false, tail, max),
    decreases junk.len(),
{
    let buf = junk + seq![10u8] + tail;
    let jl = junk.len() as int;
    let read_to = if buf.len() <= max + 1 { buf.len() as int } else { (max + 1) as int };
    if jl < read_to {
        assert(buf[jl] == 10u8);
        assert(forall|i: int| 0 <= i < jl ==> buf[i] == junk[i]);
        lemma_find_first_at(buf, 10u8, read_to, jl);
        assert(buf.skip(jl + 1) =~= tail);
    } else {
        assert(forall|i: int| 0 <= i < read_to ==> buf[i] == junk[i]);
        lemma_find_first(buf, 10u8, read_to);
        let rest = buf.skip(read_to);
        assert(rest.len() > 0);
        assert(rest =~= junk.skip(read_to) + seq![10u8] + tail);
        assert(forall|i: int|
            0 <= i < junk.skip(read_to).len() ==> #[trigger] junk.skip(read_to)[i] == junk[
                i + read_to
            ]);
        lemma_scan_discard(junk.skip(read_to), tail, max);
    }
}

/// Law: an over-length line is dropped whole — never delivered — and
/// the next well-formed frame after its boundary decodes intact, so one
/// bad line never tears the stream down.
pub proof fn lemma_discard_resync(junk: Seq<u8>, fields: Seq<Seq<char>>, max: nat)
    requires
        forall|i: int| 0 <= i < junk.len() ==> junk[i] != 10u8,
        junk.len() > max,
        frame_ok(fields),
        encode_utf8(spec_join(fields)).len() + 1 <= max,
    ensures
        ({
            let s = spec_scan(false, junk + seq![10u8] + spec_encoded(fields), max);
            &&& s.disc == false
            &&& s.rest.len() == 0
            &&& s.line matches Option::Some(l) && valid_utf8(l)
                && spec_split(decode_utf8(l)) == fields
        }),
{
    let buf = junk + seq![10u8] + spec_encoded(fields);
    let read_to = if buf.len() <= max + 1 { buf.len() as int } else { (max + 1) as int };
    assert(read_to <= junk.len());
    assert(forall|i: int| 0 <= i < read_to ==> buf[i] == junk[i]);
    lemma_find_first(buf, 10u8, read_to);
    assert(buf.len() > max);
    lemma_scan_discard(junk, spec_encoded(fields), max);
    lemma_round_trip(fields, max);
}


/// One scanner step never grows the buffer, and consumes at least one
/// byte whenever it delivers a line.
pub proof fn lemma_scan_shrinks(disc: bool, buf: Seq<u8>, max: nat)
    ensures
        spec_scan(disc, buf, max).rest.len() <= buf.len(),
        spec_scan(disc, buf, max).line is Some ==> spec_scan(disc, buf, max).rest.len()
            < buf.len(),
    decreases buf.len(), (if disc { 0int } else { 1int }),
{
    let read_to = if buf.len() <= max + 1 { buf.len() as int } else { (max + 1) as int };
    let nl = find_first(buf, 10u8, read_to);
    if disc {
        if 0 <= nl < buf.len() {
            lemma_scan_shrinks(false, buf.skip(nl + 1), max);
        } else {
            let rest = buf.skip(read_to);
            if rest.len() != 0 {
                lemma_scan_shrinks(true, rest, max);
            }
        }
    } else {
        if 0 <= nl < buf.len() {
        } else if buf.len() > max {
            lemma_scan_shrinks(true, buf, max);
        }
    }
}

} // verus!
