//! The metadata of a catalog: the headers that the translation of the empty
//! text holds, one `Name: value` line each.

use crate::error::Error;
use crate::text::{
    chars_of, decimal_up_to, find, find_char, find_text, lemma_split_step, parse_decimal, position,
    range_is, split, str_of, trim, trim_in,
};
use vstd::hash_map::StringHashMap;
use vstd::prelude::*;
use vstd::slice::slice_subrange;
use vstd::string::*;

verus! {

/// The headers of a catalog, by name.
pub struct MetadataMap {
    headers: StringHashMap<String>,
    /// The names of the headers, in the order in which they first came in.
    names: Vec<String>,
}

/// The names are those of the headers: every header has its name among
/// them, and every one of them names a header.
pub open spec fn names_cover(names: Seq<String>, headers: Map<Seq<char>, String>) -> bool {
    &&& forall|key: Seq<char>| #[trigger]
        headers.contains_key(key) ==> named_before(names, names.len() as int, key)
    &&& forall|i: int| 0 <= i < names.len() ==> headers.contains_key(#[trigger] names[i]@)
}

/// One of the first `count` names is `key`.
pub open spec fn named_before(names: Seq<String>, count: int, key: Seq<char>) -> bool {
    exists|i: int| 0 <= i < count && #[trigger] names[i]@ == key
}

impl View for MetadataMap {
    type V = Map<Seq<char>, Seq<char>>;

    closed spec fn view(&self) -> Map<Seq<char>, Seq<char>> {
        Map::new(
            |name: Seq<char>| self.headers@.contains_key(name),
            |name: Seq<char>| self.headers@[name]@,
        )
    }
}

/// The name and the value that a line with a colon gives: what stands before
/// the first colon and what stands after it, each without the white space
/// around it.
pub open spec fn header_of(line: Seq<char>) -> Option<(Seq<char>, Seq<char>)> {
    match position(line, ':') {
        Some(i) => Some((trim(line.subrange(0, i)), trim(line.subrange(i + 1, line.len() as int)))),
        None => None,
    }
}

/// The headers that the lines give. An empty line gives none; of two lines
/// with one name the later counts. A line that is not empty and has no colon
/// spoils the whole.
pub open spec fn headers_from(lines: Seq<Seq<char>>) -> Option<Map<Seq<char>, Seq<char>>>
    decreases lines.len(),
{
    if lines.len() == 0 {
        Some(Map::empty())
    } else {
        match headers_from(lines.drop_last()) {
            Some(before) => if lines.last().len() == 0 {
                Some(before)
            } else {
                match header_of(lines.last()) {
                    Some((name, value)) => Some(before.insert(name, value)),
                    None => None,
                }
            },
            None => None,
        }
    }
}

/// The headers that a metadata text gives, line by line.
pub open spec fn headers_of(blob: Seq<char>) -> Option<Map<Seq<char>, Seq<char>>> {
    headers_from(split(blob, '\n'))
}

/// Lines that follow spoiled lines do not mend them.
pub proof fn lemma_headers_spoiled(lines: Seq<Seq<char>>, more: Seq<Seq<char>>)
    requires
        headers_from(lines) is None,
    ensures
        headers_from(lines + more) is None,
    decreases more.len(),
{
    if more.len() == 0 {
        assert(lines + more =~= lines);
    } else {
        assert((lines + more).drop_last() =~= lines + more.drop_last());
        lemma_headers_spoiled(lines, more.drop_last());
    }
}

/// What `Content-Type` declares as the character set: all that follows the
/// first `charset=` in it.
pub open spec fn charset_in(value: Seq<char>) -> Option<Seq<char>> {
    match find(value, "charset="@) {
        Some(i) => Some(value.subrange(i + "charset="@.len(), value.len() as int)),
        None => None,
    }
}

/// The character set that the headers declare.
pub open spec fn charset_of(headers: Map<Seq<char>, Seq<char>>) -> Option<Seq<char>> {
    if headers.contains_key("Content-Type"@) {
        charset_in(headers["Content-Type"@])
    } else {
        None
    }
}

/// The number of plural forms and the plural formula after one more piece
/// of `Plural-Forms` has been read. A piece `n_plurals = N` sets the number,
/// to none if `N` is no decimal literal that fits; a piece `plural = F` sets
/// the formula; any other piece changes nothing.
pub open spec fn plural_piece(
    before: (Option<usize>, Option<Seq<char>>),
    piece: Seq<char>,
) -> (Option<usize>, Option<Seq<char>>) {
    match position(piece, '=') {
        Some(i) => {
            let name = trim(piece.subrange(0, i));
            let value = trim(piece.subrange(i + 1, piece.len() as int));
            if name == "n_plurals"@ {
                (
                    match decimal_up_to(value, usize::MAX as nat) {
                        Some(n) => Some(n as usize),
                        None => None,
                    },
                    before.1,
                )
            } else if name == "plural"@ {
                (before.0, Some(value))
            } else {
                before
            }
        },
        None => before,
    }
}

/// The number of plural forms and the plural formula that the pieces give.
pub open spec fn plural_forms_from(pieces: Seq<Seq<char>>) -> (Option<usize>, Option<Seq<char>>)
    decreases pieces.len(),
{
    if pieces.len() == 0 {
        (None, None)
    } else {
        plural_piece(plural_forms_from(pieces.drop_last()), pieces.last())
    }
}

/// The number of plural forms and the plural formula that the headers give:
/// those of the pieces that `;` separates in `Plural-Forms`.
pub open spec fn plural_forms_of(headers: Map<Seq<char>, Seq<char>>) -> (
    Option<usize>,
    Option<Seq<char>>,
) {
    if headers.contains_key("Plural-Forms"@) {
        plural_forms_from(split(headers["Plural-Forms"@], ';'))
    } else {
        (None, None)
    }
}

impl Clone for MetadataMap {
    /// A copy of the headers.
    fn clone(&self) -> (r: MetadataMap)
        ensures
            r@ == self@,
    {
        proof {
            use_type_invariant(self);
        }
        let mut copy = MetadataMap::new();
        let mut i: usize = 0;
        while i < self.names.len()
            invariant
                i <= self.names.len(),
                names_cover(self.names@, self.headers@),
                forall|key: Seq<char>| #[trigger]
                    copy@.contains_key(key) <==> named_before(self.names@, i as int, key),
                forall|key: Seq<char>| #[trigger]
                    copy@.contains_key(key) ==> copy@[key] == self@[key],
            decreases self.names.len() - i,
        {
            let name = &self.names[i];
            let ghost before = copy@;
            match self.headers.get(name.as_str()) {
                Some(value) => {
                    copy.insert(name.clone(), value.clone());
                },
                None => {},
            }
            proof {
                assert forall|key: Seq<char>| #[trigger]
                    copy@.contains_key(key) <==> named_before(
                        self.names@,
                        i + 1,
                        key,
                    ) by {
                    if named_before(self.names@, i + 1, key) {
                        let j = choose|j: int| 0 <= j < i + 1 && #[trigger] self.names@[j]@ == key;
                        if j < i {
                            assert(named_before(self.names@, i as int, key));
                        }
                    }
                    if before.contains_key(key) {
                        let j = choose|j: int| 0 <= j < i && #[trigger] self.names@[j]@ == key;
                        assert(0 <= j < i + 1 && self.names@[j]@ == key);
                    }
                    if key == name@ {
                        assert(self.names@[i as int]@ == key);
                    }
                }
            }
            i += 1;
        }
        assert(copy@ =~= self@);
        copy
    }
}

impl MetadataMap {
    #[verifier::type_invariant]
    spec fn listed(&self) -> bool {
        names_cover(self.names@, self.headers@)
    }

    /// A map without headers.
    pub fn new() -> (r: MetadataMap)
        ensures
            r@ == Map::<Seq<char>, Seq<char>>::empty(),
    {
        let r = MetadataMap { headers: StringHashMap::new(), names: Vec::new() };
        assert(r@ =~= Map::<Seq<char>, Seq<char>>::empty());
        r
    }

    /// Sets the header `name` to `value`.
    pub fn insert(&mut self, name: String, value: String)
        ensures
            final(self)@ == old(self)@.insert(name@, value@),
    {
        let mut taken = MetadataMap::new();
        std::mem::swap(self, &mut taken);
        proof {
            use_type_invariant(&taken);
        }
        let MetadataMap { mut headers, mut names } = taken;
        let ghost names_before = names@;
        let ghost headers_before = headers@;
        if !headers.contains_key(name.as_str()) {
            names.push(name.clone());
        }
        headers.insert(name, value);
        proof {
            assert forall|key: Seq<char>| #[trigger]
                headers@.contains_key(key) implies named_before(
                names@,
                names@.len() as int,
                key,
            ) by {
                if headers_before.contains_key(key) {
                    let j = choose|j: int|
                        0 <= j < names_before.len() && #[trigger] names_before[j]@ == key;
                    assert(names@[j]@ == key);
                } else {
                    assert(names@[names@.len() - 1]@ == key);
                }
            }
            assert forall|i: int| 0 <= i < names@.len() implies headers@.contains_key(
                #[trigger] names@[i]@,
            ) by {
                if i < names_before.len() {
                    assert(names@[i] == names_before[i]);
                }
            }
        }
        *self = MetadataMap { headers, names };
        assert(self@ =~= old(self)@.insert(name@, value@));
    }

    /// The value of the header `name`.
    pub fn get(&self, name: &str) -> (r: Option<&str>)
        ensures
            match r {
                Some(value) => self@.contains_key(name@) && value@ == self@[name@],
                None => !self@.contains_key(name@),
            },
    {
        match self.headers.get(name) {
            Some(value) => Some(value.as_str()),
            None => None,
        }
    }

    /// The character set that `Content-Type` declares.
    pub fn charset(&self) -> (r: Option<&str>)
        ensures
            str_of(r) == charset_of(self@),
    {
        match self.get("Content-Type") {
            Some(value) => {
                let chars = chars_of(value);
                let pat = chars_of("charset=");
                match find_text(chars.as_slice(), pat.as_slice()) {
                    Some(i) => Some(value.substring_char(i + pat.len(), chars.len())),
                    None => None,
                }
            },
            None => None,
        }
    }

    /// The number of plural forms and the plural formula that `Plural-Forms`
    /// declares.
    pub fn plural_forms(&self) -> (r: (Option<usize>, Option<&str>))
        ensures
            (r.0, str_of(r.1)) == plural_forms_of(self@),
    {
        let value = match self.get("Plural-Forms") {
            Some(value) => value,
            None => {
                return (None, None);
            },
        };
        let chars = chars_of(value);
        let s = chars.as_slice();
        let n_plurals = chars_of("n_plurals");
        let plural = chars_of("plural");
        let len = s.len();
        let mut number: Option<usize> = None;
        let mut formula: Option<&str> = None;
        let mut start: usize = 0;
        let ghost mut done: Seq<Seq<char>> = Seq::empty();
        proof {
            assert(s@.subrange(0, len as int) =~= s@);
            assert(done + split(s@, ';') =~= split(s@, ';'));
        }
        loop
            invariant_except_break
                split(s@, ';') == done + split(s@.subrange(start as int, len as int), ';'),
            invariant
                s@ == value@,
                len == s.len(),
                start <= len,
                n_plurals@ == "n_plurals"@,
                plural@ == "plural"@,
                (number, str_of(formula)) == plural_forms_from(done),
            ensures
                (number, str_of(formula)) == plural_forms_from(split(s@, ';')),
            decreases len - start,
        {
            let found = find_char(s, start, len, ';');
            let stop = match found {
                Some(p) => p,
                None => len,
            };
            let ghost piece = s@.subrange(start as int, stop as int);
            proof {
                lemma_split_step(
                    s@,
                    ';',
                    start as int,
                    match found {
                        Some(p) => Some(p as int),
                        None => None,
                    },
                );
                assert((done.push(piece)).drop_last() =~= done);
            }
            match find_char(s, start, stop, '=') {
                Some(eq) => {
                    proof {
                        assert(piece.subrange(0, eq - start) =~= s@.subrange(
                            start as int,
                            eq as int,
                        ));
                        assert(piece.subrange(eq - start + 1, piece.len() as int) =~= s@.subrange(
                            eq + 1,
                            stop as int,
                        ));
                    }
                    let (name_lo, name_hi) = trim_in(s, start, eq);
                    let (value_lo, value_hi) = trim_in(s, eq + 1, stop);
                    if range_is(s, name_lo, name_hi, n_plurals.as_slice()) {
                        let digits = slice_subrange(s, value_lo, value_hi);
                        number = match parse_decimal(digits, usize::MAX as u64) {
                            Some(n) => Some(n as usize),
                            None => None,
                        };
                    } else if range_is(s, name_lo, name_hi, plural.as_slice()) {
                        formula = Some(value.substring_char(value_lo, value_hi));
                    }
                },
                None => {},
            }
            proof {
                done = done.push(piece);
            }
            match found {
                Some(p) => {
                    assert(split(s@, ';') =~= done + split(
                        s@.subrange(p + 1, len as int),
                        ';',
                    ));
                    start = p + 1;
                },
                None => {
                    assert(split(s@, ';') =~= done);
                    break ;
                },
            }
        }
        (number, formula)
    }
}

/// Reads the headers of a metadata text.
pub fn parse_metadata(blob: String) -> (r: Result<MetadataMap, Error>)
    ensures
        match r {
            Ok(map) => headers_of(blob@) == Some(map@),
            Err(e) => e is MalformedMetadata && headers_of(blob@) is None,
        },
{
    let text = blob.as_str();
    let chars = chars_of(text);
    let s = chars.as_slice();
    let len = s.len();
    let mut map = MetadataMap::new();
    let mut start: usize = 0;
    let ghost mut done: Seq<Seq<char>> = Seq::empty();
    proof {
        assert(s@.subrange(0, len as int) =~= s@);
        assert(done + split(s@, '\n') =~= split(s@, '\n'));
    }
    loop
        invariant_except_break
            split(s@, '\n') == done + split(s@.subrange(start as int, len as int), '\n'),
        invariant
            s@ == text@,
            text@ == blob@,
            len == s.len(),
            start <= len,
            headers_from(done) == Some(map@),
        ensures
            headers_from(split(s@, '\n')) == Some(map@),
        decreases len - start,
    {
        let found = find_char(s, start, len, '\n');
        let stop = match found {
            Some(p) => p,
            None => len,
        };
        let ghost line = s@.subrange(start as int, stop as int);
        let ghost rest = match found {
            Some(p) => split(s@.subrange(p + 1, len as int), '\n'),
            None => Seq::empty(),
        };
        proof {
            lemma_split_step(
                s@,
                '\n',
                start as int,
                match found {
                    Some(p) => Some(p as int),
                    None => None,
                },
            );
            assert((done.push(line)).drop_last() =~= done);
            assert(split(s@, '\n') =~= done.push(line) + rest);
        }
        if start < stop {
            match find_char(s, start, stop, ':') {
                Some(colon) => {
                    proof {
                        assert(line.subrange(0, colon - start) =~= s@.subrange(
                            start as int,
                            colon as int,
                        ));
                        assert(line.subrange(colon - start + 1, line.len() as int) =~= s@.subrange(
                            colon + 1,
                            stop as int,
                        ));
                    }
                    let (name_lo, name_hi) = trim_in(s, start, colon);
                    let (value_lo, value_hi) = trim_in(s, colon + 1, stop);
                    map.insert(
                        text.substring_char(name_lo, name_hi).to_owned(),
                        text.substring_char(value_lo, value_hi).to_owned(),
                    );
                },
                None => {
                    proof {
                        lemma_headers_spoiled(done.push(line), rest);
                    }
                    return Err(Error::MalformedMetadata);
                },
            }
        }
        proof {
            done = done.push(line);
        }
        match found {
            Some(p) => {
                start = p + 1;
            },
            None => {
                assert(split(s@, '\n') =~= done);
                break ;
            },
        }
    }
    Ok(map)
}

} // verus!
