//! Messages and the catalog that holds them.

use crate::metadata::MetadataMap;
use crate::plurals::{
    count_of, default_ast, default_formula, form_index, Ast, English, PluralRule, Resolver,
};
use crate::text::str_of;
use vstd::hash_map::StringHashMap;
use vstd::prelude::*;
use vstd::string::*;
use vstd::utf8::{encode_scalar, encode_utf8, has_width_1_encoding};

verus! {

/// A message that can be translated: the original text, an optional plural
/// of it, an optional context, and the translations.
#[derive(Debug, PartialEq, Eq)]
pub struct Message {
    /// The original text, by which the message is looked up.
    pub id: String,
    /// The context that tells this message from others with the same text.
    pub context: Option<String>,
    /// The translations, one for each plural form of the target language.
    pub translated: Vec<String>,
    /// The plural of the original text.
    pub plural: Option<String>,
}

/// What a message holds, as mathematical values.
pub struct MessageView {
    pub id: Seq<char>,
    pub context: Option<Seq<char>>,
    pub translated: Seq<Seq<char>>,
    pub plural: Option<Seq<char>>,
}

/// The characters of an optional text.
pub open spec fn text_of(s: Option<String>) -> Option<Seq<char>> {
    match s {
        Some(t) => Some(t@),
        None => None,
    }
}

/// The characters of each text of a list.
pub open spec fn texts_of(v: Seq<String>) -> Seq<Seq<char>> {
    Seq::new(v.len(), |i: int| v[i]@)
}

impl View for Message {
    type V = MessageView;

    open spec fn view(&self) -> MessageView {
        MessageView {
            id: self.id@,
            context: text_of(self.context),
            translated: texts_of(self.translated@),
            plural: text_of(self.plural),
        }
    }
}

/// The key of a text in a context: the context, U+0004, the text.
pub open spec fn context_key(context: Seq<char>, id: Seq<char>) -> Seq<char> {
    context + seq!['\u{4}'] + id
}

/// The key under which a catalog holds a message.
pub open spec fn key_of(msg: MessageView) -> Seq<char> {
    match msg.context {
        Some(context) => context_key(context, msg.id),
        None => msg.id,
    }
}

/// Builds the key of the text `key` in the context `context`.
pub fn key_with_context(context: &str, key: &str) -> (r: String)
    ensures
        r@ == context_key(context@, key@),
        encode_utf8(r@) == encode_utf8(context@) + seq![4u8] + encode_utf8(key@),
{
    let mut result = context.to_owned();
    proof {
        reveal_strlit("\x04");
        lemma_context_key_bytes(context@, key@);
    }
    result.append("\x04");
    result.append(key);
    assert("\x04"@ =~= seq!['\u{4}']);
    result
}

/// A copy of an optional text.
fn copy_text(s: &Option<String>) -> (r: Option<String>)
    ensures
        text_of(r) == text_of(*s),
{
    match s {
        Some(t) => Some(t.clone()),
        None => None,
    }
}

/// An owned copy of an optional text.
fn own_text(s: Option<&str>) -> (r: Option<String>)
    ensures
        text_of(r) == str_of(s),
{
    match s {
        Some(t) => Some(t.to_owned()),
        None => None,
    }
}

impl Message {
    /// A message without a plural.
    pub fn new(id: &str, context: Option<&str>, translated: Vec<&str>) -> (r: Message)
        ensures
            r@.id == id@,
            r@.context == str_of(context),
            r@.translated == Seq::new(translated@.len(), |i: int| translated@[i]@),
            r@.plural is None,
    {
        Message::with_plural(id, context, translated, None)
    }

    /// A message with the plural of its original text, if it has one.
    pub fn with_plural(
        id: &str,
        context: Option<&str>,
        translated: Vec<&str>,
        plural: Option<&str>,
    ) -> (r: Message)
        ensures
            r@.id == id@,
            r@.context == str_of(context),
            r@.translated == Seq::new(translated@.len(), |i: int| translated@[i]@),
            r@.plural == str_of(plural),
    {
        let mut owned: Vec<String> = Vec::new();
        let mut i: usize = 0;
        while i < translated.len()
            invariant
                i <= translated.len(),
                owned.len() == i,
                forall|j: int| 0 <= j < i ==> owned@[j]@ == translated@[j]@,
            decreases translated.len() - i,
        {
            owned.push(translated[i].to_owned());
            i += 1;
        }
        let r = Message {
            id: id.to_owned(),
            context: own_text(context),
            translated: owned,
            plural: own_text(plural),
        };
        assert(r@.translated =~= Seq::new(translated@.len(), |i: int| translated@[i]@));
        r
    }

    /// The translation for the plural form `form_no`, if the message has it.
    pub fn get_translated(&self, form_no: usize) -> (r: Option<&str>)
        ensures
            match r {
                Some(t) => form_no < self@.translated.len() && t@ == self@.translated[
                    form_no as int],
                None => form_no >= self@.translated.len(),
            },
    {
        if form_no < self.translated.len() {
            Some(self.translated[form_no].as_str())
        } else {
            None
        }
    }

    /// The key under which a catalog holds this message.
    pub fn key(&self) -> (r: String)
        ensures
            r@ == key_of(self@),
    {
        match &self.context {
            Some(context) => key_with_context(context.as_str(), self.id.as_str()),
            None => self.id.clone(),
        }
    }
}

impl Clone for Message {
    /// A copy of this message.
    fn clone(&self) -> (r: Message)
        ensures
            r@ == self@,
    {
        let mut translated: Vec<String> = Vec::new();
        let mut i: usize = 0;
        while i < self.translated.len()
            invariant
                i <= self.translated.len(),
                translated.len() == i,
                forall|j: int| 0 <= j < i ==> translated@[j]@ == self.translated@[j]@,
            decreases self.translated.len() - i,
        {
            translated.push(self.translated[i].clone());
            i += 1;
        }
        let r = Message {
            id: self.id.clone(),
            context: copy_text(&self.context),
            translated,
            plural: copy_text(&self.plural),
        };
        assert(r@.translated =~= self@.translated);
        r
    }
}

/// The index of a catalog names, for each key, the place of the message
/// with that key, and every message is found under its key.
pub open spec fn indexed(entries: Seq<Message>, index: Map<Seq<char>, usize>) -> bool {
    &&& forall|key: Seq<char>| #[trigger]
        index.contains_key(key) ==> index[key] < entries.len() && key_of(
            entries[index[key] as int]@,
        ) == key
    &&& forall|i: int|
        0 <= i < entries.len() ==> {
            let key = key_of(#[trigger] entries[i]@);
            index.contains_key(key) && index[key] == i
        }
}

/// The messages that indexed entries hold, by key.
pub open spec fn messages_of(entries: Seq<Message>, index: Map<Seq<char>, usize>) -> Map<
    Seq<char>,
    MessageView,
> {
    Map::new(
        |key: Seq<char>| index.contains_key(key),
        |key: Seq<char>| entries[index[key] as int]@,
    )
}

/// Puts `msg` among the entries, in the place of the message that has its
/// key if there is one.
fn store(entries: &mut Vec<Message>, index: &mut StringHashMap<usize>, msg: Message)
    requires
        indexed(old(entries)@, old(index)@),
    ensures
        indexed(final(entries)@, final(index)@),
        messages_of(final(entries)@, final(index)@) == messages_of(
            old(entries)@,
            old(index)@,
        ).insert(key_of(msg@), msg@),
{
    let key = msg.key();
    let place = match index.get(key.as_str()) {
        Some(i) => Some(*i),
        None => None,
    };
    match place {
        Some(i) => {
            entries.set(i, msg);
            assert(indexed(entries@, index@)) by {
                assert forall|j: int| 0 <= j < entries.len() implies index@.contains_key(
                    key_of(#[trigger] entries@[j]@),
                ) && index@[key_of(entries@[j]@)] == j by {
                    if j != i {
                        assert(entries@[j] == old(entries)@[j]);
                    }
                }
            }
        },
        None => {
            let i = entries.len();
            index.insert(key, i);
            entries.push(msg);
            assert(indexed(entries@, index@)) by {
                assert forall|j: int| 0 <= j < entries.len() implies index@.contains_key(
                    key_of(#[trigger] entries@[j]@),
                ) && index@[key_of(entries@[j]@)] == j by {
                    if j != i {
                        assert(entries@[j] == old(entries)@[j]);
                    }
                }
            }
        },
    }
    assert(messages_of(entries@, index@) =~= messages_of(old(entries)@, old(index)@).insert(
        key_of(msg@),
        msg@,
    ));
}

/// The translations of one MO file, by the texts that they translate.
///
/// `R` is the type of the plural rule that the caller may supply.
pub struct Catalog<R: PluralRule = English> {
    entries: Vec<Message>,
    index: StringHashMap<usize>,
    resolver: Resolver<R>,
    metadata: Option<MetadataMap>,
}

impl<R: PluralRule> View for Catalog<R> {
    type V = Map<Seq<char>, MessageView>;

    /// The messages of the catalog, by key.
    closed spec fn view(&self) -> Map<Seq<char>, MessageView> {
        messages_of(self.entries@, self.index@)
    }
}

impl<R: PluralRule + Clone> Clone for Catalog<R> {
    /// A copy of the catalog: the same messages and headers, and a copy of
    /// the plural rule.
    fn clone(&self) -> (r: Catalog<R>)
        ensures
            r@ == self@,
            r.headers() == self.headers(),
            match self.resolver() {
                Resolver::Expr(ast) => r.resolver() == Resolver::<R>::Expr(ast),
                Resolver::Function(rule) => r.resolver() matches Resolver::Function(copy)
                    && cloned(rule, copy),
            },
    {
        let mut copy = Catalog::<R>::hollow().with_resolver(self.resolver.clone());
        copy.merge(self);
        let metadata = match &self.metadata {
            Some(map) => Some(map.clone()),
            None => None,
        };
        copy.set_metadata(metadata);
        assert(copy@ =~= self@);
        copy
    }
}

impl Catalog<English> {
    /// Creates an empty catalog: every text is its own translation.
    pub fn empty() -> (r: Catalog<English>)
        ensures
            r@ == Map::<Seq<char>, MessageView>::empty(),
            r.resolver() == Resolver::<English>::Expr(default_formula()),
            r.headers() is None,
    {
        Catalog::new()
    }

    /// Creates an empty catalog.
    pub fn new() -> (r: Catalog<English>)
        ensures
            r@ == Map::<Seq<char>, MessageView>::empty(),
            r.resolver() == Resolver::<English>::Expr(default_formula()),
            r.headers() is None,
    {
        let r = Catalog {
            entries: Vec::new(),
            index: StringHashMap::new(),
            resolver: Resolver::default_rule(),
            metadata: None,
        };
        assert(r@ =~= Map::<Seq<char>, MessageView>::empty());
        r
    }
}

impl<R: PluralRule> Catalog<R> {
    #[verifier::type_invariant]
    spec fn well_formed(&self) -> bool {
        indexed(self.entries@, self.index@)
    }

    /// The rule by which the catalog picks plural forms.
    pub closed spec fn resolver(&self) -> Resolver<R> {
        self.resolver
    }

    /// The headers of the catalog, if it has metadata.
    pub closed spec fn headers(&self) -> Option<Map<Seq<char>, Seq<char>>> {
        match self.metadata {
            Some(map) => Some(map@),
            None => None,
        }
    }

    /// A catalog to leave behind while the fields of another are worked on:
    /// it has no messages and no metadata, and its rule is the formula `n`,
    /// which takes no memory.
    fn hollow() -> (r: Catalog<R>)
        ensures
            r@ == Map::<Seq<char>, MessageView>::empty(),
            r.resolver() == Resolver::<R>::Expr(Ast::N),
            r.headers() is None,
    {
        let r = Catalog {
            entries: Vec::new(),
            index: StringHashMap::new(),
            resolver: Resolver::Expr(Ast::N),
            metadata: None,
        };
        assert(r@ =~= Map::<Seq<char>, MessageView>::empty());
        r
    }

    /// Puts a message into the catalog, in the place of the message that has
    /// its key if there is one.
    pub fn insert(&mut self, msg: Message)
        ensures
            final(self)@ == old(self)@.insert(key_of(msg@), msg@),
            final(self).resolver() == old(self).resolver(),
            final(self).headers() == old(self).headers(),
    {
        let mut taken = Catalog::<R>::hollow();
        std::mem::swap(self, &mut taken);
        proof {
            use_type_invariant(&taken);
        }
        let Catalog { mut entries, mut index, resolver, metadata } = taken;
        store(&mut entries, &mut index, msg);
        *self = Catalog { entries, index, resolver, metadata };
    }

    /// Replaces the rule by which the catalog picks plural forms.
    pub fn set_resolver(&mut self, resolver: Resolver<R>)
        ensures
            final(self)@ == old(self)@,
            final(self).resolver() == resolver,
            final(self).headers() == old(self).headers(),
    {
        let mut taken = Catalog::<R>::hollow();
        std::mem::swap(self, &mut taken);
        proof {
            use_type_invariant(&taken);
        }
        let Catalog { entries, index, resolver: _, metadata } = taken;
        *self = Catalog { entries, index, resolver, metadata };
    }

    /// The same catalog with another rule to pick plural forms, which may
    /// be of another type.
    pub fn with_resolver<R2: PluralRule>(self, resolver: Resolver<R2>) -> (r: Catalog<R2>)
        ensures
            r@ == self@,
            r.resolver() == resolver,
            r.headers() == self.headers(),
    {
        proof {
            use_type_invariant(&self);
        }
        let Catalog { entries, index, resolver: _, metadata } = self;
        Catalog { entries, index, resolver, metadata }
    }

    /// Replaces the metadata of the catalog.
    pub fn set_metadata(&mut self, metadata: Option<MetadataMap>)
        ensures
            final(self)@ == old(self)@,
            final(self).resolver() == old(self).resolver(),
            final(self).headers() == match metadata {
                Some(map) => Some(map@),
                None => None,
            },
    {
        let mut taken = Catalog::<R>::hollow();
        std::mem::swap(self, &mut taken);
        proof {
            use_type_invariant(&taken);
        }
        let Catalog { entries, index, resolver, metadata: _ } = taken;
        *self = Catalog { entries, index, resolver, metadata };
    }

    /// The metadata of the catalog, if it has any.
    pub fn metadata(&self) -> (r: Option<&MetadataMap>)
        ensures
            match r {
                Some(map) => self.headers() == Some(map@),
                None => self.headers() is None,
            },
    {
        self.metadata.as_ref()
    }

    /// The number of messages.
    pub fn len(&self) -> (r: usize)
        ensures
            r == self@.len(),
    {
        proof {
            use_type_invariant(self);
            lemma_indexed_len(self.entries@, self.index@);
        }
        self.entries.len()
    }

    /// The message held under `key`; it is a message with that key.
    pub fn get(&self, key: &str) -> (r: Option<&Message>)
        ensures
            match r {
                Some(msg) => self@.contains_key(key@) && msg@ == self@[key@] && key_of(msg@)
                    == key@,
                None => !self@.contains_key(key@),
            },
    {
        proof {
            use_type_invariant(self);
        }
        match self.index.get(key) {
            Some(i) => Some(&self.entries[*i]),
            None => None,
        }
    }

    /// The keys of the messages, each once, in no particular order.
    pub fn keys(&self) -> (r: Vec<String>)
        ensures
            r@.len() == self@.len(),
            forall|i: int| 0 <= i < r@.len() ==> self@.contains_key(#[trigger] r@[i]@),
            forall|key: Seq<char>|
                self@.contains_key(key) ==> exists|i: int|
                    0 <= i < r@.len() && #[trigger] r@[i]@ == key,
    {
        proof {
            use_type_invariant(self);
            lemma_indexed_len(self.entries@, self.index@);
        }
        let mut keys: Vec<String> = Vec::new();
        let mut i: usize = 0;
        while i < self.entries.len()
            invariant
                i <= self.entries.len(),
                keys.len() == i,
                forall|j: int| 0 <= j < i ==> #[trigger] keys@[j]@ == key_of(self.entries@[j]@),
            decreases self.entries.len() - i,
        {
            keys.push(self.entries[i].key());
            i += 1;
        }
        assert forall|key: Seq<char>| self@.contains_key(key) implies exists|i: int|
            0 <= i < keys@.len() && #[trigger] keys@[i]@ == key by {
            let i = self.index@[key] as int;
            assert(keys@[i]@ == key);
        }
        keys
    }

    /// The translation of `key` for the plural form `form_no` if the catalog
    /// has it, and else `msg_id` for one object and `msg_id_plural` for any
    /// other number of objects.
    pub fn plural_form<'a>(
        &'a self,
        key: &str,
        form_no: usize,
        msg_id: &'a str,
        msg_id_plural: &'a str,
        n: i64,
    ) -> (r: &'a str)
        ensures
            r@ == plural(self@, key@, form_no as nat, msg_id@, msg_id_plural@, n),
    {
        let found = match self.get(key) {
            Some(msg) => msg.get_translated(form_no),
            None => None,
        };
        match found {
            Some(text) => text,
            None => {
                if n == 1 {
                    msg_id
                } else {
                    msg_id_plural
                }
            },
        }
    }

    /// Returns the singular translation of `msg_id`, or `msg_id` itself if
    /// the catalog has no translation of it.
    pub fn gettext<'a>(&'a self, msg_id: &'a str) -> (r: &'a str)
        ensures
            r@ == singular(self@, msg_id@, msg_id@),
    {
        let found = match self.get(msg_id) {
            Some(msg) => msg.get_translated(0),
            None => None,
        };
        match found {
            Some(text) => text,
            None => msg_id,
        }
    }

    /// Returns the translation of `msg_id` in the plural form for `n`
    /// objects. If the catalog has no such translation, returns `msg_id` for
    /// one object and `msg_id_plural` for any other number.
    pub fn ngettext<'a>(&'a self, msg_id: &'a str, msg_id_plural: &'a str, n: i64) -> (r: &'a str)
        ensures
            exists|form: usize| #[trigger]
                self.resolver().picks(n, form) && r@ == plural(
                    self@,
                    msg_id@,
                    form as nat,
                    msg_id@,
                    msg_id_plural@,
                    n,
                ),
            self.resolver() matches Resolver::Expr(ast) ==> r@ == plural(
                self@,
                msg_id@,
                form_index(ast.eval(count_of(n))) as nat,
                msg_id@,
                msg_id_plural@,
                n,
            ),
            untranslated(self@, msg_id@) ==> r@ == fallback(msg_id@, msg_id_plural@, n),
    {
        let form_no = self.resolver.resolve(n);
        self.plural_form(msg_id, form_no, msg_id, msg_id_plural, n)
    }

    /// Returns the singular translation of `msg_id` in the context
    /// `msg_context`, or `msg_id` itself if the catalog has no translation
    /// of it.
    pub fn pgettext<'a>(&'a self, msg_context: &str, msg_id: &'a str) -> (r: &'a str)
        ensures
            r@ == singular(self@, context_key(msg_context@, msg_id@), msg_id@),
    {
        let key = key_with_context(msg_context, msg_id);
        let found = match self.get(key.as_str()) {
            Some(msg) => msg.get_translated(0),
            None => None,
        };
        match found {
            Some(text) => text,
            None => msg_id,
        }
    }

    /// Returns the translation of `msg_id` in the context `msg_context`, in
    /// the plural form for `n` objects. If the catalog has no such
    /// translation, returns `msg_id` for one object and `msg_id_plural` for
    /// any other number.
    pub fn npgettext<'a>(
        &'a self,
        msg_context: &str,
        msg_id: &'a str,
        msg_id_plural: &'a str,
        n: i64,
    ) -> (r: &'a str)
        ensures
            exists|form: usize| #[trigger]
                self.resolver().picks(n, form) && r@ == plural(
                    self@,
                    context_key(msg_context@, msg_id@),
                    form as nat,
                    msg_id@,
                    msg_id_plural@,
                    n,
                ),
            self.resolver() matches Resolver::Expr(ast) ==> r@ == plural(
                self@,
                context_key(msg_context@, msg_id@),
                form_index(ast.eval(count_of(n))) as nat,
                msg_id@,
                msg_id_plural@,
                n,
            ),
            untranslated(self@, context_key(msg_context@, msg_id@)) ==> r@ == fallback(
                msg_id@,
                msg_id_plural@,
                n,
            ),
    {
        let key = key_with_context(msg_context, msg_id);
        let form_no = self.resolver.resolve(n);
        self.plural_form(key.as_str(), form_no, msg_id, msg_id_plural, n)
    }

    /// Merges another catalog into this one. Where both have a message
    /// under one key, the other catalog's message replaces this one's. The
    /// plural rule and the metadata stay as they are.
    pub fn merge<R2: PluralRule>(&mut self, catalog: &Catalog<R2>)
        ensures
            final(self)@ == old(self)@.union_prefer_right(catalog@),
            final(self).resolver() == old(self).resolver(),
            final(self).headers() == old(self).headers(),
    {
        proof {
            use_type_invariant(catalog);
        }
        let mut i: usize = 0;
        while i < catalog.entries.len()
            invariant
                i <= catalog.entries.len(),
                indexed(catalog.entries@, catalog.index@),
                self@ == merged(old(self)@, catalog.entries@, catalog.index@, i as int),
                self.resolver() == old(self).resolver(),
                self.headers() == old(self).headers(),
            decreases catalog.entries.len() - i,
        {
            let msg = catalog.entries[i].clone();
            self.insert(msg);
            assert(self@ =~= merged(old(self)@, catalog.entries@, catalog.index@, i + 1));
            i += 1;
        }
        assert(self@ =~= old(self)@.union_prefer_right(catalog@));
    }
}

/// The messages of `base` with the first `count` of the given entries put
/// over them.
pub open spec fn merged(
    base: Map<Seq<char>, MessageView>,
    entries: Seq<Message>,
    index: Map<Seq<char>, usize>,
    count: int,
) -> Map<Seq<char>, MessageView> {
    Map::new(
        |key: Seq<char>| base.contains_key(key) || (index.contains_key(key) && index[key] < count),
        |key: Seq<char>|
            if index.contains_key(key) && index[key] < count {
                entries[index[key] as int]@
            } else {
                base[key]
            },
    )
}

/// The translation that the messages hold of `key` for the plural form
/// `form`.
pub open spec fn translation(
    messages: Map<Seq<char>, MessageView>,
    key: Seq<char>,
    form: nat,
) -> Option<Seq<char>> {
    if messages.contains_key(key) && form < messages[key].translated.len() {
        Some(messages[key].translated[form as int])
    } else {
        None
    }
}

/// The messages hold no translation at all of `key`.
pub open spec fn untranslated(messages: Map<Seq<char>, MessageView>, key: Seq<char>) -> bool {
    !messages.contains_key(key) || messages[key].translated.len() == 0
}

/// The text that stands in for a missing plural translation: the singular
/// for one object, the plural for any other number.
pub open spec fn fallback(id: Seq<char>, id_plural: Seq<char>, n: i64) -> Seq<char> {
    if n == 1 {
        id
    } else {
        id_plural
    }
}

/// What a singular lookup of `key` gives: the first translation, or `id`
/// where there is none.
pub open spec fn singular(
    messages: Map<Seq<char>, MessageView>,
    key: Seq<char>,
    id: Seq<char>,
) -> Seq<char> {
    match translation(messages, key, 0) {
        Some(text) => text,
        None => id,
    }
}

/// What a plural lookup of `key` gives for the plural form `form`: the
/// translation for that form, or the fallback where there is none.
pub open spec fn plural(
    messages: Map<Seq<char>, MessageView>,
    key: Seq<char>,
    form: nat,
    id: Seq<char>,
    id_plural: Seq<char>,
    n: i64,
) -> Seq<char> {
    match translation(messages, key, form) {
        Some(text) => text,
        None => fallback(id, id_plural, n),
    }
}

/// Indexed entries hold as many messages as there are entries.
proof fn lemma_indexed_len(entries: Seq<Message>, index: Map<Seq<char>, usize>)
    requires
        indexed(entries, index),
    ensures
        messages_of(entries, index).dom().finite(),
        messages_of(entries, index).len() == entries.len(),
    decreases entries.len(),
{
    let messages = messages_of(entries, index);
    assert(messages.dom() =~= index.dom());
    if entries.len() == 0 {
        assert(index.dom() =~= Set::<Seq<char>>::empty());
    } else {
        let last = entries.last();
        let key = key_of(entries[entries.len() - 1]@);
        let fewer = entries.drop_last();
        let smaller = index.remove(key);
        assert(indexed(fewer, smaller)) by {
            assert forall|k: Seq<char>| #[trigger] smaller.contains_key(k) implies smaller[k]
                < fewer.len() && key_of(fewer[smaller[k] as int]@) == k by {
                assert(index.contains_key(k));
            }
            assert forall|i: int| 0 <= i < fewer.len() implies smaller.contains_key(
                key_of(#[trigger] fewer[i]@),
            ) && smaller[key_of(fewer[i]@)] == i by {
                assert(fewer[i] == entries[i]);
            }
        }
        lemma_indexed_len(fewer, smaller);
        assert(messages_of(fewer, smaller).dom() =~= smaller.dom());
        assert(index.dom() =~= smaller.dom().insert(key));
    }
}

/// The UTF-8 bytes of a text made of two parts are those of the first part
/// and then those of the second.
proof fn lemma_bytes_of_parts(a: Seq<char>, b: Seq<char>)
    ensures
        encode_utf8(a + b) == encode_utf8(a) + encode_utf8(b),
    decreases a.len(),
{
    if a.len() == 0 {
        assert(a + b =~= b);
        assert(encode_utf8(a) + encode_utf8(b) =~= encode_utf8(b));
    } else {
        assert((a + b).drop_first() =~= a.drop_first() + b);
        lemma_bytes_of_parts(a.drop_first(), b);
        assert(encode_utf8(a + b) =~= encode_utf8(a) + encode_utf8(b));
    }
}

/// Byte for byte, the key of a text in a context is the context, the byte 4
/// and the text.
pub proof fn lemma_context_key_bytes(context: Seq<char>, id: Seq<char>)
    ensures
        encode_utf8(context_key(context, id)) == encode_utf8(context) + seq![4u8] + encode_utf8(
            id,
        ),
{
    let separator = seq!['\u{4}'];
    assert(encode_utf8(separator) =~= seq![4u8]) by {
        assert(has_width_1_encoding(4u32)) by (bit_vector);
        assert(4u32 & 0x7F == 4u32) by (bit_vector);
        assert('\u{4}' as u32 == 4u32);
        assert(encode_scalar(4u32) =~= seq![4u8]);
        assert(separator.drop_first().len() == 0);
        assert(encode_utf8(separator) =~= encode_scalar(separator[0] as u32) + encode_utf8(
            separator.drop_first(),
        ));
    }
    lemma_bytes_of_parts(context, separator);
    lemma_bytes_of_parts(context + separator, id);
}

/// A singular lookup gives a translation exactly where the messages hold
/// one under the key, and then the first one; everywhere else it gives back
/// the text that stands for the missing translation.
pub proof fn lemma_singular_translated(
    messages: Map<Seq<char>, MessageView>,
    key: Seq<char>,
    id: Seq<char>,
)
    ensures
        !untranslated(messages, key) ==> singular(messages, key, id) == messages[key].translated[0],
        untranslated(messages, key) ==> singular(messages, key, id) == id,
{
}

/// A catalog without messages translates every text by itself.
pub proof fn lemma_empty_catalog_is_identity(x: Seq<char>)
    ensures
        singular(Map::<Seq<char>, MessageView>::empty(), x, x) == x,
{
}

/// Where the messages hold no translation under the key, a plural lookup
/// gives the singular for one object and the plural for any other number,
/// whatever form the plural rule picks.
pub proof fn lemma_untranslated_plural(
    messages: Map<Seq<char>, MessageView>,
    key: Seq<char>,
    form: nat,
    id: Seq<char>,
    id_plural: Seq<char>,
    n: i64,
)
    requires
        untranslated(messages, key),
    ensures
        plural(messages, key, form, id, id_plural, n) == (if n == 1 {
            id
        } else {
            id_plural
        }),
{
}

} // verus!
