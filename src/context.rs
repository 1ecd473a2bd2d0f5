//! The typed value store that templates are rendered against.

use vstd::hash_map::StringHashMap;
use vstd::prelude::*;

use crate::number::Decimal;

verus! {

/// A value bound to a key: a number, a text, or a duration in whole seconds.
#[derive(Clone, Debug)]
pub enum MapCont {
    Number(Decimal),
    Str(String),
    Duration(u64),
}

/// A value as the contracts see it.
pub enum Content {
    Number(Decimal),
    Text(Seq<char>),
    Seconds(u64),
}

impl View for MapCont {
    type V = Content;

    open spec fn view(&self) -> Content {
        match self {
            MapCont::Number(n) => Content::Number(*n),
            MapCont::Str(s) => Content::Text(s@),
            MapCont::Duration(s) => Content::Seconds(*s),
        }
    }
}

impl From<String> for MapCont {
    fn from(s: String) -> (r: MapCont) {
        MapCont::Str(s)
    }
}

impl vstd::std_specs::convert::FromSpecImpl<String> for MapCont {
    open spec fn obeys_from_spec() -> bool {
        true
    }

    open spec fn from_spec(s: String) -> MapCont {
        MapCont::Str(s)
    }
}

impl From<Decimal> for MapCont {
    fn from(n: Decimal) -> (r: MapCont) {
        MapCont::Number(n)
    }
}

impl vstd::std_specs::convert::FromSpecImpl<Decimal> for MapCont {
    open spec fn obeys_from_spec() -> bool {
        true
    }

    open spec fn from_spec(n: Decimal) -> MapCont {
        MapCont::Number(n)
    }
}

/// The context: at most one value for each key.
pub struct FormatMap(StringHashMap<MapCont>);

impl View for FormatMap {
    type V = Map<Seq<char>, Content>;

    closed spec fn view(&self) -> Map<Seq<char>, Content> {
        self.0@.map_values(|v: MapCont| v@)
    }
}

impl FormatMap {
    /// An empty context.
    pub fn new() -> (r: Self)
        ensures
            r@ == Map::<Seq<char>, Content>::empty(),
    {
        let r = FormatMap(StringHashMap::new());
        assert(r@ =~= Map::<Seq<char>, Content>::empty());
        r
    }

    /// Binds `key` to `cont`, replacing what it was bound to.
    pub fn insert(&mut self, key: &str, cont: MapCont)
        ensures
            final(self)@ == old(self)@.insert(key@, cont@),
    {
        let ghost v = cont@;
        self.0.insert(key.to_owned(), cont);
        assert(self@ =~= old(self)@.insert(key@, v));
    }

    /// Binds `key` to the text that `fill` makes of an empty buffer.
    pub fn update_string_with<F>(&mut self, key: &str, fill: F)
        where
            F: FnOnce(String) -> String,
        requires
            forall|b: String| #[trigger] fill.requires((b,)),
        ensures
            exists|b: String, t: String|
                b@.len() == 0 && #[trigger] fill.ensures((b,), t) && final(self)@
                    == old(self)@.insert(key@, Content::Text(t@)),
    {
        let buf = String::new();
        let ghost b = buf;
        let text = fill(buf);
        let ghost t = text;
        self.insert(key, MapCont::Str(text));
        assert(b@.len() == 0 && fill.ensures((b,), t) && self@ == old(self)@.insert(
            key@,
            Content::Text(t@),
        ));
    }

    /// The value bound to `key`, if any.
    pub fn get(&self, key: &str) -> (r: Option<&MapCont>)
        ensures
            match r {
                Some(v) => self@.contains_key(key@) && v@ == self@[key@],
                None => !self@.contains_key(key@),
            },
    {
        self.0.get(key)
    }
}

} // verus!
