//! Reading the MO file format.
//!
//! An MO file starts with a magic number that also tells the byte order of
//! every other number in the file. The header names two tables of the same
//! length, one of the original strings and one of their translations. A
//! record of a table gives the length and the place of a string; a zero byte
//! that the length does not count follows each string.

use crate::catalog::{key_of, plural, singular, Catalog, Message, MessageView};
use crate::charset::{decoded, known_label, Charset};
use crate::error::Error;
use crate::metadata::{charset_of, headers_of, parse_metadata, plural_forms_of, MetadataMap};
use crate::plurals::{
    default_ast, default_formula, parse_text, Ast, English, FnRule, PluralRule, Resolver,
};
use crate::text::{
    chars_of, lemma_position_is, lemma_position_none, lemma_split_len, lemma_split_step, position,
    split,
};
use vstd::prelude::*;
use vstd::slice::slice_subrange;
use vstd::string::*;

verus! {

/// The number that the first four bytes hold, the least significant first.
pub open spec fn le_u32(bytes: Seq<u8>) -> int {
    bytes[0] + 0x100 * bytes[1] + 0x1_0000 * bytes[2] + 0x100_0000 * bytes[3]
}

/// The number that the first four bytes hold, the most significant first.
pub open spec fn be_u32(bytes: Seq<u8>) -> int {
    bytes[3] + 0x100 * bytes[2] + 0x1_0000 * bytes[1] + 0x100_0000 * bytes[0]
}

/// `byteorder::ByteOrder::read_u32` of `LittleEndian` reads the first four
/// bytes of `buf` as a number, the least significant byte first. It needs
/// four bytes at least.
pub assume_specification[ <byteorder::LittleEndian as byteorder::ByteOrder>::read_u32 ](
    buf: &[u8],
) -> (r: u32)
    requires
        buf@.len() >= 4,
    ensures
        r == le_u32(buf@),
;

/// `byteorder::ByteOrder::read_u32` of `BigEndian` reads the first four
/// bytes of `buf` as a number, the most significant byte first. It needs
/// four bytes at least.
pub assume_specification[ <byteorder::BigEndian as byteorder::ByteOrder>::read_u32 ](
    buf: &[u8],
) -> (r: u32)
    requires
        buf@.len() >= 4,
    ensures
        r == be_u32(buf@),
;

/// The byte order of the numbers of an MO file.
#[derive(Clone, Copy, Debug, PartialEq, Eq)]
pub enum Endian {
    /// The least significant byte comes first.
    Little,
    /// The most significant byte comes first.
    Big,
}

/// The byte order that a magic number announces.
pub open spec fn magic_endian(magic: Seq<u8>) -> Option<Endian> {
    if magic == seq![0xdeu8, 0x12u8, 0x04u8, 0x95u8] {
        Some(Endian::Little)
    } else if magic == seq![0x95u8, 0x04u8, 0x12u8, 0xdeu8] {
        Some(Endian::Big)
    } else {
        None
    }
}

impl Endian {
    /// The number that the first four bytes hold in this byte order.
    pub open spec fn value(self, bytes: Seq<u8>) -> int {
        match self {
            Endian::Little => le_u32(bytes),
            Endian::Big => be_u32(bytes),
        }
    }

    /// Reads the first four bytes of `buf` as a number.
    pub fn read_u32(self, buf: &[u8]) -> (r: u32)
        requires
            buf@.len() >= 4,
        ensures
            r == self.value(buf@),
    {
        match self {
            Endian::Little => <byteorder::LittleEndian as byteorder::ByteOrder>::read_u32(buf),
            Endian::Big => <byteorder::BigEndian as byteorder::ByteOrder>::read_u32(buf),
        }
    }
}

/// Tells from the magic number of an MO file in which byte order its numbers
/// are to be read.
pub fn get_read_u32_fn(magic: &[u8]) -> (r: Option<Endian>)
    ensures
        r == magic_endian(magic@),
{
    if magic.len() != 4 {
        return None;
    }
    if magic[0] == 0xde && magic[1] == 0x12 && magic[2] == 0x04 && magic[3] == 0x95 {
        assert(magic@ =~= seq![0xdeu8, 0x12u8, 0x04u8, 0x95u8]);
        Some(Endian::Little)
    } else if magic[0] == 0x95 && magic[1] == 0x04 && magic[2] == 0x12 && magic[3] == 0xde {
        assert(magic@ =~= seq![0x95u8, 0x04u8, 0x12u8, 0xdeu8]);
        Some(Endian::Big)
    } else {
        None
    }
}

/// The number that the four bytes at `at` hold.
pub open spec fn u32_at(bytes: Seq<u8>, endian: Endian, at: int) -> int {
    endian.value(bytes.subrange(at, at + 4))
}

/// What the header of an MO file tells.
pub struct Layout {
    /// The byte order of the numbers.
    pub endian: Endian,
    /// The number of strings.
    pub count: int,
    /// Where the table of the original strings starts.
    pub originals: int,
    /// Where the table of the translations starts.
    pub translations: int,
}

/// What the header of the file tells. A file of less than 28 bytes is cut
/// short, and so is one whose tables start behind its end.
pub open spec fn layout_of(bytes: Seq<u8>) -> Result<Layout, Error> {
    if bytes.len() < 28 {
        Err(Error::Eof)
    } else {
        match magic_endian(bytes.subrange(0, 4)) {
            Some(endian) => {
                let originals = u32_at(bytes, endian, 12);
                let translations = u32_at(bytes, endian, 16);
                if bytes.len() < originals || bytes.len() < translations {
                    Err(Error::Eof)
                } else {
                    Ok(Layout { endian, count: u32_at(bytes, endian, 8), originals, translations })
                }
            },
            None => Err(Error::BadMagic),
        }
    }
}

/// Where the string starts that record `i` of the table at `table` names,
/// and its length; nothing if the record, the string or the zero byte after
/// the string lies behind the end of the file.
pub open spec fn record_at(bytes: Seq<u8>, endian: Endian, table: int, i: int) -> Option<
    (int, int),
> {
    let at = table + 8 * i;
    if bytes.len() < at + 8 {
        None
    } else {
        let len = u32_at(bytes, endian, at);
        let off = u32_at(bytes, endian, at + 4);
        if bytes.len() < off + len + 1 {
            None
        } else {
            Some((off, len))
        }
    }
}

/// An original string without its context.
pub open spec fn after_context(original: Seq<u8>) -> Seq<u8> {
    match position(original, 4u8) {
        Some(i) => original.subrange(i + 1, original.len() as int),
        None => original,
    }
}

/// The context of an original string.
pub open spec fn context_of(original: Seq<u8>) -> Option<Seq<u8>> {
    match position(original, 4u8) {
        Some(i) => Some(original.subrange(0, i)),
        None => None,
    }
}

/// `s` without the zero characters at its end.
pub open spec fn strip_nuls(s: Seq<char>) -> Seq<char>
    decreases s.len(),
{
    if s.len() > 0 && s.last() == '\0' {
        strip_nuls(s.drop_last())
    } else {
        s
    }
}

/// The texts that the pieces hold in the encoding `label`; nothing if one of
/// them is invalid.
pub open spec fn decoded_all(label: Seq<char>, pieces: Seq<Seq<u8>>) -> Option<Seq<Seq<char>>> {
    if forall|i: int| 0 <= i < pieces.len() ==> (#[trigger] decoded(label, pieces[i])) is Some {
        Some(Seq::new(pieces.len(), |i: int| decoded(label, pieces[i])->0))
    } else {
        None
    }
}

/// What has been read of a file.
pub struct Progress {
    /// The messages, by key.
    pub messages: Map<Seq<char>, MessageView>,
    /// The headers of the metadata.
    pub headers: Option<Map<Seq<char>, Seq<char>>>,
    /// The label of the encoding of the strings that follow.
    pub charset: Seq<char>,
    /// The plural formula of the metadata.
    pub formula: Option<Ast>,
}

/// The original string of entry `i`, read in the encoding of `before`: its
/// text, its context and its plural.
///
/// The string with the zero byte after it is cut at the first byte 4, if
/// there is one: the context stands before it. The rest is cut at its first
/// zero byte: the text stands before it, and the plural after it, if anything
/// does. The plural loses the zero characters at its end.
pub open spec fn original_of(bytes: Seq<u8>, layout: Layout, i: int, label: Seq<char>) -> Result<
    MessageView,
    Error,
> {
    match record_at(bytes, layout.endian, layout.originals, i) {
        Some((off, len)) => {
            let original = bytes.subrange(off, off + len + 1);
            let rest = after_context(original);
            let context = match context_of(original) {
                Some(c) => decoded(label, c),
                None => None,
            };
            if context_of(original) is Some && context is None {
                Err(Error::DecodingError)
            } else {
                match position(rest, 0u8) {
                    Some(z) => {
                        let id = decoded(label, rest.subrange(0, z));
                        let tail = rest.subrange(z + 1, rest.len() as int);
                        let plural = decoded(label, tail);
                        if tail.len() > 0 && plural is None {
                            Err(Error::DecodingError)
                        } else if id is None {
                            Err(Error::DecodingError)
                        } else {
                            Ok(
                                MessageView {
                                    id: id->0,
                                    context,
                                    translated: Seq::empty(),
                                    plural: if tail.len() > 0 {
                                        Some(strip_nuls(plural->0))
                                    } else {
                                        None
                                    },
                                },
                            )
                        }
                    },
                    None => Err(Error::Eof),
                }
            }
        },
        None => Err(Error::Eof),
    }
}

/// The translations of entry `i`, read in the encoding `label`: the texts
/// of the pieces of the translation string between its zero bytes.
pub open spec fn translations_of(
    bytes: Seq<u8>,
    layout: Layout,
    i: int,
    label: Seq<char>,
) -> Result<Seq<Seq<char>>, Error> {
    match record_at(bytes, layout.endian, layout.translations, i) {
        Some((off, len)) => match decoded_all(label, split(bytes.subrange(off, off + len), 0u8)) {
            Some(translated) => Ok(translated),
            None => Err(Error::DecodingError),
        },
        None => Err(Error::Eof),
    }
}

/// The message of entry `i`, read in the encoding `label`. An entry whose
/// text is empty holds the metadata; it must be the first entry.
pub open spec fn message_of(bytes: Seq<u8>, layout: Layout, i: int, label: Seq<char>) -> Result<
    MessageView,
    Error,
> {
    match original_of(bytes, layout, i, label) {
        Ok(original) => if original.id.len() == 0 && i != 0 {
            Err(Error::MisplacedMetadata)
        } else {
            match translations_of(bytes, layout, i, label) {
                Ok(translated) => Ok(
                    MessageView {
                        id: original.id,
                        context: original.context,
                        translated,
                        plural: original.plural,
                    },
                ),
                Err(e) => Err(e),
            }
        },
        Err(e) => Err(e),
    }
}

/// What the metadata tell.
pub struct Declared {
    /// The headers.
    pub headers: Map<Seq<char>, Seq<char>>,
    /// The label of the encoding of the strings that follow, if it changes.
    pub charset: Option<Seq<char>>,
    /// The plural formula, if there is a new one.
    pub formula: Option<Ast>,
}

/// What the metadata text `blob` tells: its headers; unless the caller has
/// fixed the encoding, the character set that the headers declare, which
/// must be known; unless the caller has fixed the plural rule, the plural
/// formula of the headers, which must be a formula.
pub open spec fn declared_by(blob: Seq<char>, fixed_charset: bool, fixed_plural: bool) -> Result<
    Declared,
    Error,
> {
    match headers_of(blob) {
        Some(headers) => {
            let charset = if fixed_charset {
                None
            } else {
                charset_of(headers)
            };
            let source = if fixed_plural {
                None
            } else {
                plural_forms_of(headers).1
            };
            if charset is Some && !known_label(charset->0) {
                Err(Error::UnknownEncoding)
            } else if source is Some && parse_text(source->0) is None {
                Err(Error::PluralParsing)
            } else {
                Ok(
                    Declared {
                        headers,
                        charset,
                        formula: match source {
                            Some(text) => parse_text(text),
                            None => None,
                        },
                    },
                )
            }
        },
        None => Err(Error::MalformedMetadata),
    }
}

/// What has been read once `msg` has joined the messages of `before`.
pub open spec fn with_message(before: Progress, msg: MessageView) -> Progress {
    Progress {
        messages: before.messages.insert(key_of(msg), msg),
        headers: before.headers,
        charset: before.charset,
        formula: before.formula,
    }
}

/// What has been read once the metadata have told what they tell.
pub open spec fn with_declared(before: Progress, declared: Declared) -> Progress {
    Progress {
        messages: before.messages,
        headers: Some(declared.headers),
        charset: match declared.charset {
            Some(label) => label,
            None => before.charset,
        },
        formula: match declared.formula {
            Some(ast) => Some(ast),
            None => before.formula,
        },
    }
}

/// What has been read after entry `i`.
///
/// The entry's strings are read in the encoding in force. The first
/// translation of an entry whose text is empty holds the metadata. The
/// message of the entry joins the others under its key.
pub open spec fn entry_step(
    bytes: Seq<u8>,
    layout: Layout,
    fixed_charset: bool,
    fixed_plural: bool,
    i: int,
    before: Progress,
) -> Result<Progress, Error> {
    match message_of(bytes, layout, i, before.charset) {
        Ok(msg) => if msg.id.len() == 0 {
            match declared_by(msg.translated[0], fixed_charset, fixed_plural) {
                Ok(declared) => Ok(with_message(with_declared(before, declared), msg)),
                Err(e) => Err(e),
            }
        } else {
            Ok(with_message(before, msg))
        },
        Err(e) => Err(e),
    }
}

/// What has been read after the first `count` entries, one after the other.
/// The first entry that fails makes the whole fail.
pub open spec fn entries(
    bytes: Seq<u8>,
    layout: Layout,
    fixed_charset: bool,
    fixed_plural: bool,
    start: Progress,
    count: int,
) -> Result<Progress, Error>
    decreases count,
{
    if count <= 0 {
        Ok(start)
    } else {
        match entries(bytes, layout, fixed_charset, fixed_plural, start, count - 1) {
            Ok(before) => entry_step(bytes, layout, fixed_charset, fixed_plural, count - 1, before),
            Err(e) => Err(e),
        }
    }
}

/// What an MO file holds, read with the encoding `charset` if the caller
/// fixes one, and else with UTF-8 up to the metadata and then with the
/// encoding that they declare.
pub open spec fn file_contents(
    bytes: Seq<u8>,
    charset: Option<Seq<char>>,
    fixed_plural: bool,
) -> Result<Progress, Error> {
    match layout_of(bytes) {
        Ok(layout) => entries(
            bytes,
            layout,
            charset is Some,
            fixed_plural,
            Progress {
                messages: Map::empty(),
                headers: None,
                charset: match charset {
                    Some(label) => label,
                    None => "utf-8"@,
                },
                formula: None,
            },
            layout.count,
        ),
        Err(e) => Err(e),
    }
}

/// The plural rule of a catalog: the rule that the caller has fixed, else
/// the formula of the metadata, else `n != 1`.
pub open spec fn resolver_of<R: PluralRule>(fixed: Option<R>, formula: Option<Ast>) -> Resolver<
    R,
> {
    match fixed {
        Some(rule) => Resolver::Function(rule),
        None => match formula {
            Some(ast) => Resolver::Expr(ast),
            None => Resolver::Expr(default_formula()),
        },
    }
}

/// Entries that follow a failure do not mend it.
pub proof fn lemma_entries_failed(
    bytes: Seq<u8>,
    layout: Layout,
    fixed_charset: bool,
    fixed_plural: bool,
    start: Progress,
    failed: int,
    count: int,
)
    requires
        failed <= count,
        entries(bytes, layout, fixed_charset, fixed_plural, start, failed) is Err,
    ensures
        entries(bytes, layout, fixed_charset, fixed_plural, start, count) == entries(
            bytes,
            layout,
            fixed_charset,
            fixed_plural,
            start,
            failed,
        ),
    decreases count - failed,
{
    if failed < count {
        lemma_entries_failed(bytes, layout, fixed_charset, fixed_plural, start, failed, count - 1);
    }
}

/// The header of an MO file.
#[derive(Clone, Copy, Debug)]
pub struct Header {
    /// The byte order of the numbers.
    pub endian: Endian,
    /// The number of strings.
    pub count: u32,
    /// Where the table of the original strings starts.
    pub originals: u32,
    /// Where the table of the translations starts.
    pub translations: u32,
}

impl View for Header {
    type V = Layout;

    open spec fn view(&self) -> Layout {
        Layout {
            endian: self.endian,
            count: self.count as int,
            originals: self.originals as int,
            translations: self.translations as int,
        }
    }
}

/// Reads the header of an MO file.
pub fn read_header(bytes: &[u8]) -> (r: Result<Header, Error>)
    ensures
        match r {
            Ok(header) => layout_of(bytes@) == Ok::<Layout, Error>(header@),
            Err(e) => layout_of(bytes@) == Err::<Layout, Error>(e),
        },
{
    let n = bytes.len();
    if n < 28 {
        return Err(Error::Eof);
    }
    let endian = match get_read_u32_fn(slice_subrange(bytes, 0, 4)) {
        Some(endian) => endian,
        None => {
            return Err(Error::BadMagic);
        },
    };
    let count = endian.read_u32(slice_subrange(bytes, 8, 12));
    let originals = endian.read_u32(slice_subrange(bytes, 12, 16));
    let translations = endian.read_u32(slice_subrange(bytes, 16, 20));
    if (n as u64) < originals as u64 || (n as u64) < translations as u64 {
        return Err(Error::Eof);
    }
    Ok(Header { endian, count, originals, translations })
}

/// Reads record `i` of the table at `table`: where a string starts, and its
/// length.
pub fn read_record(bytes: &[u8], endian: Endian, table: u32, i: u32) -> (r: Option<(usize, usize)>)
    ensures
        match r {
            Some((off, len)) => off + len + 1 <= bytes@.len() && record_at(
                bytes@,
                endian,
                table as int,
                i as int,
            ) == Some((off as int, len as int)),
            None => record_at(bytes@, endian, table as int, i as int) is None,
        },
{
    let n: u64 = bytes.len() as u64;
    let at: u64 = table as u64 + 8 * (i as u64);
    if n < at + 8 {
        return None;
    }
    let at: usize = at as usize;
    let len = endian.read_u32(slice_subrange(bytes, at, at + 4));
    let off = endian.read_u32(slice_subrange(bytes, at + 4, at + 8));
    if n < off as u64 + len as u64 + 1 {
        return None;
    }
    Some((off as usize, len as usize))
}

/// Finds where the byte `b` first occurs in `bytes[lo..hi]`.
pub(crate) fn find_byte(bytes: &[u8], lo: usize, hi: usize, b: u8) -> (r: Option<usize>)
    requires
        lo <= hi <= bytes.len(),
    ensures
        match r {
            Some(p) => lo <= p < hi && position(bytes@.subrange(lo as int, hi as int), b) == Some(
                p - lo,
            ),
            None => position(bytes@.subrange(lo as int, hi as int), b) is None,
        },
{
    let ghost s = bytes@.subrange(lo as int, hi as int);
    let mut p: usize = lo;
    while p < hi
        invariant
            lo <= p <= hi <= bytes.len(),
            s == bytes@.subrange(lo as int, hi as int),
            forall|j: int| 0 <= j < p - lo ==> s[j] != b,
        decreases hi - p,
    {
        if bytes[p] == b {
            proof {
                lemma_position_is(s, b, p - lo);
            }
            return Some(p);
        }
        p += 1;
    }
    proof {
        lemma_position_none(s, b);
    }
    None
}

/// Drops the zero characters at the end of `text`.
pub fn strip_trailing_nuls(text: String) -> (r: String)
    ensures
        r@ == strip_nuls(text@),
{
    let chars = chars_of(text.as_str());
    let mut end: usize = chars.len();
    assert(chars@.subrange(0, end as int) =~= text@);
    while end > 0 && chars[end - 1] == '\0'
        invariant
            end <= chars.len(),
            chars@ == text@,
            strip_nuls(chars@.subrange(0, end as int)) == strip_nuls(text@),
        decreases end,
    {
        assert(chars@.subrange(0, end as int).drop_last() =~= chars@.subrange(0, end - 1));
        end -= 1;
    }
    proof {
        if end == 0 {
            assert(chars@.subrange(0, 0).len() == 0);
        }
    }
    if end == chars.len() {
        assert(chars@.subrange(0, end as int) =~= text@);
        text
    } else {
        text.as_str().substring_char(0, end).to_owned()
    }
}

/// Reads the original string of entry `i`: the text, the context and the
/// plural of a message that has no translations yet.
pub fn read_original(bytes: &[u8], header: &Header, i: u32, charset: &Charset) -> (r: Result<
    Message,
    Error,
>)
    ensures
        match r {
            Ok(msg) => original_of(bytes@, header@, i as int, charset@) == Ok::<MessageView, Error>(
                msg@,
            ),
            Err(e) => original_of(bytes@, header@, i as int, charset@) == Err::<MessageView, Error>(
                e,
            ),
        },
{
    let (off, len) = match read_record(bytes, header.endian, header.originals, i) {
        Some(record) => record,
        None => {
            return Err(Error::Eof);
        },
    };
    let n = bytes.len();
    let end: usize = off + len + 1;
    let ghost original = bytes@.subrange(off as int, end as int);
    let (context, start) = match find_byte(bytes, off, end, 4) {
        Some(p) => {
            assert(original.subrange(0, p - off) =~= bytes@.subrange(off as int, p as int));
            assert(original.subrange(p - off + 1, original.len() as int) =~= bytes@.subrange(
                p + 1,
                end as int,
            ));
            match charset.decode(slice_subrange(bytes, off, p)) {
                Some(text) => (Some(text), p + 1),
                None => {
                    return Err(Error::DecodingError);
                },
            }
        },
        None => {
            (None, off)
        },
    };
    let ghost rest = bytes@.subrange(start as int, end as int);
    assert(rest == after_context(original));
    let z = match find_byte(bytes, start, end, 0) {
        Some(z) => z,
        None => {
            return Err(Error::Eof);
        },
    };
    assert(rest.subrange(0, z - start) =~= bytes@.subrange(start as int, z as int));
    assert(rest.subrange(z - start + 1, rest.len() as int) =~= bytes@.subrange(z + 1, end as int));
    let plural = if z + 1 < end {
        match charset.decode(slice_subrange(bytes, z + 1, end)) {
            Some(text) => Some(strip_trailing_nuls(text)),
            None => {
                return Err(Error::DecodingError);
            },
        }
    } else {
        None
    };
    let id = match charset.decode(slice_subrange(bytes, start, z)) {
        Some(text) => text,
        None => {
            return Err(Error::DecodingError);
        },
    };
    let msg = Message { id, context, translated: Vec::new(), plural };
    assert(msg@.translated =~= Seq::<Seq<char>>::empty());
    Ok(msg)
}

/// Reads the translations of entry `i`.
pub fn read_translations(bytes: &[u8], header: &Header, i: u32, charset: &Charset) -> (r: Result<
    Vec<String>,
    Error,
>)
    ensures
        match r {
            Ok(translated) => translations_of(bytes@, header@, i as int, charset@) == Ok::<
                Seq<Seq<char>>,
                Error,
            >(crate::catalog::texts_of(translated@)),
            Err(e) => translations_of(bytes@, header@, i as int, charset@) == Err::<
                Seq<Seq<char>>,
                Error,
            >(e),
        },
{
    let (off, len) = match read_record(bytes, header.endian, header.translations, i) {
        Some(record) => record,
        None => {
            return Err(Error::Eof);
        },
    };
    let n = bytes.len();
    let end: usize = off + len;
    let ghost blob = bytes@.subrange(off as int, end as int);
    let ghost pieces = split(blob, 0u8);
    let mut translated: Vec<String> = Vec::new();
    let mut start: usize = off;
    let ghost mut done: Seq<Seq<u8>> = Seq::empty();
    proof {
        assert(blob.subrange(0, blob.len() as int) =~= blob);
        assert(done + pieces =~= pieces);
    }
    loop
        invariant_except_break
            pieces == done + split(blob.subrange(start - off, blob.len() as int), 0u8),
        invariant
            off <= start <= end <= bytes.len(),
            record_at(bytes@, header@.endian, header@.translations, i as int) == Some(
                (off as int, len as int),
            ),
            end == off + len,
            blob == bytes@.subrange(off as int, end as int),
            pieces == split(blob, 0u8),
            translated@.len() == done.len(),
            forall|j: int|
                0 <= j < done.len() ==> (#[trigger] decoded(charset@, done[j])) == Some(
                    translated@[j]@,
                ),
        ensures
            pieces == done,
        decreases end - start,
    {
        let found = find_byte(bytes, start, end, 0);
        let stop = match found {
            Some(p) => p,
            None => end,
        };
        let ghost piece = bytes@.subrange(start as int, stop as int);
        let ghost rest = match found {
            Some(p) => split(blob.subrange(p + 1 - off, blob.len() as int), 0u8),
            None => Seq::empty(),
        };
        proof {
            assert(blob.subrange(start - off, blob.len() as int) =~= bytes@.subrange(
                start as int,
                end as int,
            ));
            lemma_split_step(
                blob,
                0u8,
                start - off,
                match found {
                    Some(p) => Some(p - off),
                    None => None,
                },
            );
            assert(blob.subrange(start - off, stop - off) =~= piece);
            assert(pieces =~= done.push(piece) + rest);
        }
        match charset.decode(slice_subrange(bytes, start, stop)) {
            Some(text) => {
                translated.push(text);
            },
            None => {
                assert(pieces[done.len() as int] == piece);
                assert(decoded(charset@, pieces[done.len() as int]) is None);
                return Err(Error::DecodingError);
            },
        }
        proof {
            done = done.push(piece);
        }
        match found {
            Some(p) => {
                start = p + 1;
            },
            None => {
                assert(pieces =~= done);
                break ;
            },
        }
    }
    proof {
        let texts = crate::catalog::texts_of(translated@);
        assert(decoded_all(charset@, pieces) == Some(texts)) by {
            assert(Seq::new(pieces.len(), |i: int| decoded(charset@, pieces[i])->0) =~= texts);
        }
    }
    Ok(translated)
}

/// Options for reading a catalog.
///
/// `R` is the type of the plural rule that the caller may fix.
pub struct ParseOptions<R: PluralRule = English> {
    force_encoding: Option<Charset>,
    force_plural: Option<R>,
}

impl ParseOptions<English> {
    /// Options that fix nothing.
    pub fn new() -> (r: ParseOptions<English>)
        ensures
            r.forced_encoding() is None,
            r.forced_plural() is None,
    {
        ParseOptions { force_encoding: None, force_plural: None }
    }
}

impl<R: PluralRule> ParseOptions<R> {
    /// The label of the encoding that the caller has fixed.
    pub closed spec fn forced_encoding(self) -> Option<Seq<char>> {
        match self.force_encoding {
            Some(charset) => Some(charset@),
            None => None,
        }
    }

    /// The plural rule that the caller has fixed.
    pub closed spec fn forced_plural(self) -> Option<R> {
        self.force_plural
    }

    /// Reads a catalog from the bytes of an MO file with these options.
    pub fn parse(self, contents: &[u8]) -> (r: Result<Catalog<R>, Error>)
        ensures
            parse_outcome(
                r,
                file_contents(contents@, self.forced_encoding(), self.forced_plural() is Some),
                self.forced_plural(),
            ),
    {
        parse_catalog(contents, self)
    }

    /// Fixes the encoding of the strings of the catalog. Without this the
    /// strings are read in the encoding that the metadata declare, and in
    /// UTF-8 if they declare none.
    pub fn force_encoding(self, encoding: Charset) -> (r: ParseOptions<R>)
        ensures
            r.forced_encoding() == Some(encoding@),
            r.forced_plural() == self.forced_plural(),
    {
        ParseOptions { force_encoding: Some(encoding), force_plural: self.force_plural }
    }

    /// Fixes the rule that picks the plural form of a message: for `n`
    /// objects the form is what `plural` returns. Without this the rule is
    /// the plural formula of the metadata, and `n != 1` if they have none.
    pub fn force_plural<F: Fn(i64) -> usize + Send + Sync>(self, plural: F) -> (r: ParseOptions<
        FnRule<F>,
    >)
        requires
            forall|n: i64| call_requires(plural, (n,)),
        ensures
            r.forced_encoding() == self.forced_encoding(),
            r.forced_plural() matches Some(rule) && rule.function() == plural,
    {
        let rule = FnRule::new(plural);
        ParseOptions { force_encoding: self.force_encoding, force_plural: Some(rule) }
    }
}

impl<R: PluralRule> Default for ParseOptions<R> {
    fn default() -> (r: ParseOptions<R>)
        ensures
            r.forced_encoding() is None,
            r.forced_plural() is None,
    {
        ParseOptions { force_encoding: None, force_plural: None }
    }
}

/// How the outcome of reading a file relates to what the file holds: the
/// catalog has the messages and the headers that were read, and its plural
/// rule is the one that the caller has fixed, else the formula of the
/// metadata, else `n != 1`; a failure is the failure of the first entry that
/// cannot be read.
pub open spec fn parse_outcome<R: PluralRule>(
    r: Result<Catalog<R>, Error>,
    expected: Result<Progress, Error>,
    fixed: Option<R>,
) -> bool {
    match r {
        Ok(catalog) => expected matches Ok(read) && catalog@ == read.messages && catalog.headers()
            == read.headers && catalog.resolver() == resolver_of(fixed, read.formula),
        Err(e) => expected == Err::<Progress, Error>(e),
    }
}

/// Reads the message of entry `i`.
pub fn read_message(bytes: &[u8], header: &Header, i: u32, charset: &Charset) -> (r: Result<
    Message,
    Error,
>)
    ensures
        match r {
            Ok(msg) => message_of(bytes@, header@, i as int, charset@) == Ok::<MessageView, Error>(
                msg@,
            ) && msg@.translated.len() > 0,
            Err(e) => message_of(bytes@, header@, i as int, charset@) == Err::<MessageView, Error>(
                e,
            ),
        },
{
    let original = match read_original(bytes, header, i, charset) {
        Ok(original) => original,
        Err(e) => {
            return Err(e);
        },
    };
    if original.id.as_str().is_empty() && i != 0 {
        return Err(Error::MisplacedMetadata);
    }
    let translated = match read_translations(bytes, header, i, charset) {
        Ok(translated) => translated,
        Err(e) => {
            return Err(e);
        },
    };
    proof {
        let record = record_at(bytes@, header@.endian, header@.translations, i as int)->0;
        lemma_split_len(bytes@.subrange(record.0, record.0 + record.1), 0u8);
    }
    let Message { id, context, translated: _, plural } = original;
    Ok(Message { id, context, translated, plural })
}

/// What reading the metadata gave: the headers, the encoding of the strings
/// that follow if it changes, and the plural formula if there is a new one.
pub struct Metadata {
    pub headers: MetadataMap,
    pub charset: Option<Charset>,
    pub formula: Option<Ast>,
}

impl View for Metadata {
    type V = Declared;

    open spec fn view(&self) -> Declared {
        Declared {
            headers: self.headers@,
            charset: match self.charset {
                Some(charset) => Some(charset@),
                None => None,
            },
            formula: self.formula,
        }
    }
}

/// Reads the metadata text `blob`.
pub fn read_metadata(blob: String, fixed_charset: bool, fixed_plural: bool) -> (r: Result<
    Metadata,
    Error,
>)
    ensures
        match r {
            Ok(metadata) => declared_by(blob@, fixed_charset, fixed_plural) == Ok::<
                Declared,
                Error,
            >(metadata@),
            Err(e) => declared_by(blob@, fixed_charset, fixed_plural) == Err::<Declared, Error>(e),
        },
{
    let headers = match parse_metadata(blob) {
        Ok(headers) => headers,
        Err(_) => {
            return Err(Error::MalformedMetadata);
        },
    };
    let declared = if fixed_charset {
        None
    } else {
        headers.charset()
    };
    let charset = match declared {
        Some(label) => match Charset::for_label(label) {
            Some(charset) => Some(charset),
            None => {
                return Err(Error::UnknownEncoding);
            },
        },
        None => None,
    };
    let source = if fixed_plural {
        None
    } else {
        headers.plural_forms().1
    };
    let formula = match source {
        Some(text) => match Ast::parse(text) {
            Ok(ast) => Some(ast),
            Err(_) => {
                return Err(Error::PluralParsing);
            },
        },
        None => None,
    };
    Ok(Metadata { headers, charset, formula })
}

/// Reads a catalog from the bytes of an MO file.
pub fn parse_catalog<R: PluralRule>(contents: &[u8], opts: ParseOptions<R>) -> (r: Result<
    Catalog<R>,
    Error,
>)
    ensures
        parse_outcome(
            r,
            file_contents(contents@, opts.forced_encoding(), opts.forced_plural() is Some),
            opts.forced_plural(),
        ),
{
    let header = match read_header(contents) {
        Ok(header) => header,
        Err(e) => {
            return Err(e);
        },
    };
    let ParseOptions { force_encoding, force_plural } = opts;
    let ghost fixed = force_plural;
    let ghost forced = opts.forced_encoding();
    let fixed_plural = force_plural.is_some();
    let resolver: Resolver<R> = match force_plural {
        Some(rule) => Resolver::Function(rule),
        None => Resolver::Expr(default_ast()),
    };
    let mut catalog: Catalog<R> = Catalog::new().with_resolver(resolver);
    let fixed_charset = force_encoding.is_some();
    let mut charset = match force_encoding {
        Some(charset) => charset,
        None => Charset::utf8(),
    };
    let ghost start = Progress {
        messages: Map::empty(),
        headers: None,
        charset: charset@,
        formula: None,
    };
    let ghost mut formula: Option<Ast> = None;
    let mut i: u32 = 0;
    while i < header.count
        invariant
            i <= header.count,
            fixed_plural == (fixed is Some),
            fixed == opts.forced_plural(),
            file_contents(contents@, opts.forced_encoding(), fixed_plural) == entries(
                contents@,
                header@,
                fixed_charset,
                fixed_plural,
                start,
                header@.count,
            ),
            entries(contents@, header@, fixed_charset, fixed_plural, start, i as int) == Ok::<
                Progress,
                Error,
            >(
                Progress {
                    messages: catalog@,
                    headers: catalog.headers(),
                    charset: charset@,
                    formula,
                },
            ),
            catalog.resolver() == resolver_of(fixed, formula),
        decreases header.count - i,
    {
        let ghost before = Progress {
            messages: catalog@,
            headers: catalog.headers(),
            charset: charset@,
            formula,
        };
        proof {
            let step = entry_step(
                contents@,
                header@,
                fixed_charset,
                fixed_plural,
                i as int,
                before,
            );
            assert(entries(contents@, header@, fixed_charset, fixed_plural, start, i + 1) == step);
            if step is Err {
                lemma_entries_failed(
                    contents@,
                    header@,
                    fixed_charset,
                    fixed_plural,
                    start,
                    i + 1,
                    header@.count,
                );
            }
        }
        let msg = match read_message(contents, &header, i, &charset) {
            Ok(msg) => msg,
            Err(e) => {
                return Err(e);
            },
        };
        if msg.id.as_str().is_empty() {
            let metadata = match read_metadata(
                msg.translated[0].clone(),
                fixed_charset,
                fixed_plural,
            ) {
                Ok(metadata) => metadata,
                Err(e) => {
                    return Err(e);
                },
            };
            let Metadata { headers, charset: declared, formula: compiled } = metadata;
            match declared {
                Some(declared) => {
                    charset = declared;
                },
                None => {},
            }
            match compiled {
                Some(ast) => {
                    proof {
                        formula = Some(ast);
                    }
                    catalog.set_resolver(Resolver::Expr(ast));
                },
                None => {},
            }
            catalog.set_metadata(Some(headers));
        }
        catalog.insert(msg);
        i += 1;
    }
    Ok(catalog)
}

impl Catalog<English> {
    /// Reads a catalog from the bytes of an MO file. The strings are read in
    /// the encoding that the metadata declare, and in UTF-8 if they declare
    /// none.
    pub fn parse(contents: &[u8]) -> (r: Result<Catalog<English>, Error>)
        ensures
            parse_outcome(r, file_contents(contents@, None, false), None::<English>),
    {
        ParseOptions::new().parse(contents)
    }
}

/// Every message stands under its own key and has at least one translation.
pub open spec fn filled(messages: Map<Seq<char>, MessageView>) -> bool {
    forall|key: Seq<char>| #[trigger]
        messages.contains_key(key) ==> {
            &&& key_of(messages[key]) == key
            &&& messages[key].translated.len() > 0
        }
}

/// The messages read from a file stand under their own keys and have at
/// least one translation each.
pub proof fn lemma_entries_filled(
    bytes: Seq<u8>,
    layout: Layout,
    fixed_charset: bool,
    fixed_plural: bool,
    start: Progress,
    count: int,
)
    requires
        filled(start.messages),
    ensures
        entries(bytes, layout, fixed_charset, fixed_plural, start, count) matches Ok(read)
            ==> filled(read.messages),
    decreases count,
{
    if count > 0 {
        lemma_entries_filled(bytes, layout, fixed_charset, fixed_plural, start, count - 1);
        match entries(bytes, layout, fixed_charset, fixed_plural, start, count - 1) {
            Ok(before) => {
                match message_of(bytes, layout, count - 1, before.charset) {
                    Ok(msg) => {
                        let record = record_at(
                            bytes,
                            layout.endian,
                            layout.translations,
                            count - 1,
                        )->0;
                        lemma_split_len(bytes.subrange(record.0, record.0 + record.1), 0u8);
                    },
                    Err(_) => {},
                }
            },
            Err(_) => {},
        }
    }
}

/// In a catalog read from a file, a singular lookup of a text gives a
/// translation exactly where the catalog has a message under that text, and
/// then its first translation; everywhere else it gives back the text.
pub proof fn lemma_parsed_singular(
    bytes: Seq<u8>,
    charset: Option<Seq<char>>,
    fixed_plural: bool,
    id: Seq<char>,
)
    ensures
        file_contents(bytes, charset, fixed_plural) matches Ok(read) ==> singular(
            read.messages,
            id,
            id,
        ) == (if read.messages.contains_key(id) {
            read.messages[id].translated[0]
        } else {
            id
        }),
{
    match layout_of(bytes) {
        Ok(layout) => {
            let start = Progress {
                messages: Map::empty(),
                headers: None,
                charset: match charset {
                    Some(label) => label,
                    None => "utf-8"@,
                },
                formula: None,
            };
            lemma_entries_filled(bytes, layout, charset is Some, fixed_plural, start, layout.count);
        },
        Err(_) => {},
    }
}

/// After the first entry nothing changes the encoding, the headers or the
/// plural formula: an entry that could, one with an empty text, is refused
/// everywhere but in the first place. And a message that was read stays in
/// the catalog, under its key.
pub proof fn lemma_metadata_settle(
    bytes: Seq<u8>,
    layout: Layout,
    fixed_charset: bool,
    fixed_plural: bool,
    start: Progress,
    i: int,
    count: int,
)
    requires
        1 <= i <= count,
        entries(bytes, layout, fixed_charset, fixed_plural, start, count) is Ok,
    ensures
        ({
            let read = entries(bytes, layout, fixed_charset, fixed_plural, start, count)->Ok_0;
            let before = entries(bytes, layout, fixed_charset, fixed_plural, start, i);
            &&& before matches Ok(p) && p.charset == read.charset && p.headers == read.headers
                && p.formula == read.formula
            &&& forall|key: Seq<char>| #[trigger]
                before->Ok_0.messages.contains_key(key) ==> read.messages.contains_key(key)
        }),
    decreases count - i,
{
    if i < count {
        let earlier = entries(bytes, layout, fixed_charset, fixed_plural, start, count - 1);
        if earlier is Err {
            lemma_entries_failed(
                bytes,
                layout,
                fixed_charset,
                fixed_plural,
                start,
                count - 1,
                count,
            );
        }
        lemma_metadata_settle(bytes, layout, fixed_charset, fixed_plural, start, i, count - 1);
    }
}

/// The encoding that is in force for every entry but the first: the one
/// that the caller has fixed; else the one that the metadata of the first
/// entry declare; else UTF-8.
pub open spec fn encoding_in_force(
    bytes: Seq<u8>,
    layout: Layout,
    charset: Option<Seq<char>>,
    fixed_plural: bool,
) -> Seq<char> {
    let initial = match charset {
        Some(label) => label,
        None => "utf-8"@,
    };
    match message_of(bytes, layout, 0, initial) {
        Ok(msg) => if charset is None && msg.id.len() == 0 {
            match declared_by(msg.translated[0], false, fixed_plural) {
                Ok(declared) => match declared.charset {
                    Some(label) => label,
                    None => initial,
                },
                Err(_) => initial,
            }
        } else {
            initial
        },
        Err(_) => initial,
    }
}

/// The encoding in force is the one with which the first entry leaves.
proof fn lemma_first_entry_sets_the_encoding(
    bytes: Seq<u8>,
    layout: Layout,
    charset: Option<Seq<char>>,
    fixed_plural: bool,
    start: Progress,
)
    requires
        start.charset == (match charset {
            Some(label) => label,
            None => "utf-8"@,
        }),
        entry_step(bytes, layout, charset is Some, fixed_plural, 0, start) is Ok,
    ensures
        ({
            let after = entry_step(bytes, layout, charset is Some, fixed_plural, 0, start)->Ok_0;
            let label = encoding_in_force(bytes, layout, charset, fixed_plural);
            &&& after.charset == label
            &&& charset is None && label != "utf-8"@ ==> known_label(label)
        }),
{
}

/// An entry that was read left its message in the catalog, under its key.
proof fn lemma_entry_leaves_its_message(
    bytes: Seq<u8>,
    layout: Layout,
    fixed_charset: bool,
    fixed_plural: bool,
    i: int,
    before: Progress,
)
    requires
        entry_step(bytes, layout, fixed_charset, fixed_plural, i, before) is Ok,
    ensures
        ({
            let after = entry_step(bytes, layout, fixed_charset, fixed_plural, i, before)->Ok_0;
            message_of(bytes, layout, i, before.charset) matches Ok(msg)
                && after.messages.contains_key(key_of(msg)) && after.messages[key_of(msg)] == msg
                && translations_of(bytes, layout, i, before.charset) == Ok::<
                Seq<Seq<char>>,
                Error,
            >(msg.translated)
        }),
{
}

/// In a file that can be read, every entry but the first is read in the
/// encoding in force: its strings are valid in that encoding, the catalog
/// has a message under its key, and for the last entry that message is the
/// entry's own, with the texts that the encoding gives for its bytes, so
/// that a singular lookup of its key gives the first of those texts.
pub proof fn lemma_entries_follow_the_encoding(
    bytes: Seq<u8>,
    charset: Option<Seq<char>>,
    fixed_plural: bool,
    i: int,
)
    requires
        file_contents(bytes, charset, fixed_plural) is Ok,
        1 <= i < layout_of(bytes)->Ok_0.count,
    ensures
        ({
            let layout = layout_of(bytes)->Ok_0;
            let read = file_contents(bytes, charset, fixed_plural)->Ok_0;
            let label = encoding_in_force(bytes, layout, charset, fixed_plural);
            &&& message_of(bytes, layout, i, label) matches Ok(msg) && read.messages.contains_key(
                key_of(msg),
            ) && (i == layout.count - 1 ==> read.messages[key_of(msg)] == msg && singular(
                read.messages,
                key_of(msg),
                key_of(msg),
            ) == msg.translated[0]) && translations_of(bytes, layout, i, label) == Ok::<
                Seq<Seq<char>>,
                Error,
            >(msg.translated)
            &&& charset is None && label != "utf-8"@ ==> known_label(label)
        }),
{
    let layout = layout_of(bytes)->Ok_0;
    let fixed_charset = charset is Some;
    let start = Progress {
        messages: Map::empty(),
        headers: None,
        charset: match charset {
            Some(label) => label,
            None => "utf-8"@,
        },
        formula: None,
    };
    let count = layout.count;
    let all = entries(bytes, layout, fixed_charset, fixed_plural, start, count);
    assert(all == file_contents(bytes, charset, fixed_plural));
    lemma_metadata_settle(bytes, layout, fixed_charset, fixed_plural, start, 1, count);
    lemma_metadata_settle(bytes, layout, fixed_charset, fixed_plural, start, i, count);
    lemma_metadata_settle(bytes, layout, fixed_charset, fixed_plural, start, i + 1, count);
    let first = entries(bytes, layout, fixed_charset, fixed_plural, start, 1);
    assert(first == entry_step(bytes, layout, fixed_charset, fixed_plural, 0, start)) by {
        reveal_with_fuel(entries, 2);
    }
    lemma_first_entry_sets_the_encoding(bytes, layout, charset, fixed_plural, start);
    let before = entries(bytes, layout, fixed_charset, fixed_plural, start, i)->Ok_0;
    let after = entries(bytes, layout, fixed_charset, fixed_plural, start, i + 1);
    assert(after == entry_step(bytes, layout, fixed_charset, fixed_plural, i, before));
    lemma_entry_leaves_its_message(bytes, layout, fixed_charset, fixed_plural, i, before);
    lemma_entries_filled(bytes, layout, fixed_charset, fixed_plural, start, count);
}

/// Reading is a function of the bytes and the options: two outcomes of
/// reading the same bytes with the same options are the same failure, or
/// catalogs with the same messages, the same headers and the same plural
/// rule, which therefore answer every singular lookup alike, and every
/// plural lookup alike for each form that the rule picks.
pub proof fn lemma_parse_deterministic<R: PluralRule>(
    first: Result<Catalog<R>, Error>,
    second: Result<Catalog<R>, Error>,
    expected: Result<Progress, Error>,
    fixed: Option<R>,
    key: Seq<char>,
    form: nat,
    id: Seq<char>,
    id_plural: Seq<char>,
    n: i64,
)
    requires
        parse_outcome(first, expected, fixed),
        parse_outcome(second, expected, fixed),
    ensures
        first is Ok <==> second is Ok,
        first matches Err(e1) ==> second matches Err(e2) && e1 == e2,
        first matches Ok(a) ==> second matches Ok(b) && a@ == b@ && a.headers() == b.headers()
            && a.resolver() == b.resolver() && singular(a@, key, id) == singular(b@, key, id)
            && plural(a@, key, form, id, id_plural, n) == plural(b@, key, form, id, id_plural, n),
{
}

} // verus!
