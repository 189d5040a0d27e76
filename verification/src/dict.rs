//! Dictionaries of texts, and the enumerations of descriptors that they describe.

use vstd::prelude::*;

use crate::text;

verus! {

/// A dictionary from texts to texts.
#[derive(Debug)]
pub struct Dict {
    entries: Vec<(String, String)>,
}

/// The dictionary that the entries make up; a later entry replaces an earlier one.
pub closed spec fn entries_map(entries: Seq<(String, String)>) -> Map<Seq<char>, Seq<char>>
    decreases entries.len(),
{
    if entries.len() == 0 {
        Map::empty()
    } else {
        entries_map(entries.drop_last()).insert(entries.last().0@, entries.last().1@)
    }
}

impl View for Dict {
    type V = Map<Seq<char>, Seq<char>>;

    closed spec fn view(&self) -> Map<Seq<char>, Seq<char>> {
        entries_map(self.entries@)
    }
}

proof fn lemma_entries_tail(entries: Seq<(String, String)>, i: int, key: Seq<char>)
    requires
        0 <= i <= entries.len(),
        forall|j: int| i <= j < entries.len() ==> #[trigger] entries[j].0@ != key,
    ensures
        entries_map(entries).dom().contains(key) == entries_map(entries.take(i)).dom().contains(key),
        entries_map(entries).dom().contains(key) ==> entries_map(entries)[key] == entries_map(
            entries.take(i),
        )[key],
    decreases entries.len() - i,
{
    if i < entries.len() {
        lemma_entries_tail(entries, i + 1, key);
        assert(entries.take(i + 1).drop_last() =~= entries.take(i));
        assert(entries.take(i + 1).last() == entries[i]);
    } else {
        assert(entries.take(i) =~= entries);
    }
}

proof fn lemma_entries_index(entries: Seq<(String, String)>, key: Seq<char>) -> (i: int)
    requires
        entries_map(entries).dom().contains(key),
    ensures
        0 <= i < entries.len(),
        entries[i].0@ == key,
        entries[i].1@ == entries_map(entries)[key],
    decreases entries.len(),
{
    if entries.last().0@ == key {
        entries.len() - 1
    } else {
        lemma_entries_index(entries.drop_last(), key)
    }
}

impl Dict {
    /// A dictionary without entries.
    pub fn new() -> (dict: Dict)
        ensures
            dict@ == Map::<Seq<char>, Seq<char>>::empty(),
    {
        Dict { entries: Vec::new() }
    }

    /// Sets the value of a key.
    pub fn insert(&mut self, key: String, value: String)
        ensures
            final(self)@ == old(self)@.insert(key@, value@),
    {
        self.entries.push((key, value));
        assert(self.entries@.drop_last() =~= old(self).entries@);
    }

    /// The value of a key.
    pub fn get(&self, key: &str) -> (value: Option<&String>)
        ensures
            match value {
                Some(v) => self@.dom().contains(key@) && self@[key@] == v@,
                None => !self@.dom().contains(key@),
            },
    {
        let mut i: usize = self.entries.len();
        while i > 0
            invariant
                i <= self.entries@.len(),
                forall|j: int|
                    i <= j < self.entries@.len() ==> #[trigger] self.entries@[j].0@ != key@,
            decreases i,
        {
            i -= 1;
            if text::same_text(self.entries[i].0.as_str(), key) {
                proof {
                    lemma_entries_tail(self.entries@, i + 1, key@);
                    assert(self.entries@.take(i + 1).last() == self.entries@[i as int]);
                }
                return Some(&self.entries[i].1);
            }
        }
        proof {
            lemma_entries_tail(self.entries@, 0, key@);
            assert(self.entries@.take(0) =~= Seq::<(String, String)>::empty());
        }
        None
    }
}

/// `rev` takes every value of `map` to one of the keys that have it.
pub open spec fn is_reverse(
    map: Map<Seq<char>, Seq<char>>,
    rev: Map<Seq<char>, Seq<char>>,
) -> bool {
    &&& forall|k: Seq<char>| #[trigger] map.dom().contains(k) ==> rev.dom().contains(map[k])
    &&& forall|v: Seq<char>| #[trigger]
        rev.dom().contains(v) ==> map.dom().contains(rev[v]) && map[rev[v]] == v
}

/// Swaps the keys and the values of a dictionary.
pub fn rev_map(map: &Dict) -> (rev: Dict)
    ensures
        is_reverse(map@, rev@),
{
    let mut rev: Dict = Dict::new();
    let mut i: usize = 0;
    while i < map.entries.len()
        invariant
            i <= map.entries@.len(),
            forall|v: Seq<char>| #[trigger]
                rev@.dom().contains(v) ==> map@.dom().contains(rev@[v]) && map@[rev@[v]] == v,
            forall|j: int|
                0 <= j < i && map@[map.entries@[j].0@] == map.entries@[j].1@
                    ==> rev@.dom().contains(#[trigger] map.entries@[j].1@),
        decreases map.entries@.len() - i,
    {
        let key: &String = &map.entries[i].0;
        let value: &String = &map.entries[i].1;
        let current: Option<&String> = map.get(key.as_str());
        let ghost before = rev@;
        match current {
            Some(v) => {
                if text::same_text(v.as_str(), value.as_str()) {
                    rev.insert(
                        text::owned_text(value.as_str()),
                        text::owned_text(key.as_str()),
                    );
                    assert forall|v: Seq<char>| #[trigger] rev@.dom().contains(v) implies map@.dom().contains(
                        rev@[v],
                    ) && map@[rev@[v]] == v by {
                        if v != value@ {
                            assert(before.dom().contains(v));
                        }
                    }
                }
            },
            None => {
                proof {
                    lemma_entry_present(map.entries@, i as int);
                }
            },
        }
        i += 1;
    }
    assert forall|k: Seq<char>| #[trigger] map@.dom().contains(k) implies rev@.dom().contains(
        map@[k],
    ) by {
        let j = lemma_entries_index(map.entries@, k);
        assert(map.entries@[j].1@ == map@[k]);
    }
    rev
}

proof fn lemma_entry_present(entries: Seq<(String, String)>, i: int)
    requires
        0 <= i < entries.len(),
    ensures
        entries_map(entries).dom().contains(entries[i].0@),
    decreases entries.len(),
{
    if i < entries.len() - 1 {
        lemma_entry_present(entries.drop_last(), i);
    }
}

/// `s` with each blank dropped and the letter behind it capitalised.
pub open spec fn camel_case(s: Seq<char>) -> Seq<char>
    decreases s.len(),
{
    if s.len() == 0 {
        Seq::empty()
    } else if s[0] == ' ' {
        if s.len() == 1 {
            Seq::empty()
        } else {
            seq![capital(s[1])] + camel_case(s.skip(2))
        }
    } else {
        seq![s[0]] + camel_case(s.skip(1))
    }
}

/// An ASCII letter as a capital.
pub open spec fn capital(c: char) -> char {
    if 97 <= c as int && c as int <= 122 {
        (c as int - 32) as char
    } else {
        c
    }
}

fn capital_of(c: char) -> (d: char)
    ensures
        d == capital(c),
{
    let code: u32 = c as u32;
    if 97 <= code && code <= 122 {
        (code as u8 - 32) as char
    } else {
        c
    }
}

fn camel_cased(key: &str) -> (camel: String)
    ensures
        camel@ == camel_case(key@),
{
    let chars: Vec<char> = text::chars_of(key);
    let mut camel: String = String::new();
    let mut i: usize = 0;
    assert(chars@.skip(0) =~= chars@);
    while i < chars.len()
        invariant
            i <= chars@.len(),
            camel@ + camel_case(chars@.skip(i as int)) == camel_case(chars@),
        decreases chars@.len() - i,
    {
        let ghost rest = chars@.skip(i as int);
        let ghost before = camel@;
        assert(rest[0] == chars@[i as int]);
        if chars[i] == ' ' {
            if i + 1 == chars.len() {
                assert(chars@.skip(i + 1) =~= Seq::<char>::empty());
                assert(before + camel_case(rest) =~= before + camel_case(chars@.skip(i + 1)));
                i += 1;
            } else {
                camel.push(capital_of(chars[i + 1]));
                proof {
                    assert(rest[1] == chars@[i + 1]);
                    assert(rest.skip(2) =~= chars@.skip(i + 2));
                    assert(before + (seq![capital(rest[1])] + camel_case(rest.skip(2))) =~= camel@
                        + camel_case(chars@.skip(i + 2)));
                }
                i += 2;
            }
        } else {
            camel.push(chars[i]);
            proof {
                assert(rest.skip(1) =~= chars@.skip(i + 1));
                assert(before + (seq![rest[0]] + camel_case(rest.skip(1))) =~= camel@ + camel_case(
                    chars@.skip(i + 1),
                ));
            }
            i += 1;
        }
    }
    assert(chars@.skip(i as int) =~= Seq::<char>::empty());
    assert(camel@ + camel_case(chars@.skip(i as int)) =~= camel@);
    camel
}

/// What lies before the first dot.
pub open spec fn before_dot(s: Seq<char>) -> Seq<char>
    decreases s.len(),
{
    if s.len() == 0 || s[0] == '.' {
        Seq::empty()
    } else {
        seq![s[0]] + before_dot(s.skip(1))
    }
}

/// What lies behind the first dot.
pub open spec fn after_dot(s: Seq<char>) -> Seq<char>
    decreases s.len(),
{
    if s.len() == 0 {
        Seq::empty()
    } else if s[0] == '.' {
        s.skip(1)
    } else {
        after_dot(s.skip(1))
    }
}

/// The second of the parts that the dots divide a text into; empty where there is none.
pub open spec fn second_part(s: Seq<char>) -> Seq<char> {
    before_dot(after_dot(s))
}

fn second_part_of(val: &str) -> (part: String)
    ensures
        part@ == second_part(val@),
{
    let chars: Vec<char> = text::chars_of(val);
    let mut i: usize = 0;
    let mut found: bool = false;
    assert(chars@.skip(0) =~= chars@);
    while i < chars.len() && !found
        invariant
            i <= chars@.len(),
            !found ==> after_dot(chars@.skip(i as int)) == after_dot(chars@),
            found ==> chars@.skip(i as int) == after_dot(chars@),
        decreases
                chars@.len() - i,
                (if found {
                    0int
                } else {
                    1int
                }),
    {
        assert(chars@.skip(i as int)[0] == chars@[i as int]);
        assert(chars@.skip(i as int).skip(1) =~= chars@.skip(i + 1));
        if chars[i] == '.' {
            found = true;
        }
        i += 1;
    }
    assert(!found ==> chars@.skip(i as int) =~= Seq::<char>::empty());
    let ghost tail = chars@.skip(i as int);
    assert(before_dot(tail) == second_part(val@));
    let mut part: String = String::new();
    assert(part@ + before_dot(tail) =~= second_part(val@));
    while i < chars.len()
        invariant
            i <= chars@.len(),
            part@ + before_dot(chars@.skip(i as int)) == second_part(val@),
        decreases chars@.len() - i,
    {
        let ghost rest = chars@.skip(i as int);
        let ghost before = part@;
        assert(rest[0] == chars@[i as int]);
        if chars[i] == '.' {
            assert(before + before_dot(rest) =~= before);
            return part;
        }
        part.push(chars[i]);
        proof {
            assert(rest.skip(1) =~= chars@.skip(i + 1));
            assert(before + (seq![rest[0]] + before_dot(rest.skip(1))) =~= part@ + before_dot(
                chars@.skip(i + 1),
            ));
        }
        i += 1;
    }
    assert(part@ + before_dot(chars@.skip(i as int)) =~= part@);
    part
}

/// An enumeration of a descriptor: values written `prefix.code`, and a
/// dictionary from their names to their codes.
#[derive(Debug)]
pub struct EnumCodec {
    prefix: String,
    def: String,
    map: Dict,
    rev: Dict,
}

/// The mathematical view of [`EnumCodec`].
pub struct EnumCodecView {
    pub prefix: Seq<char>,
    pub def: Seq<char>,
    pub map: Map<Seq<char>, Seq<char>>,
    pub rev: Map<Seq<char>, Seq<char>>,
}

impl View for EnumCodec {
    type V = EnumCodecView;

    closed spec fn view(&self) -> EnumCodecView {
        EnumCodecView {
            prefix: self.prefix@,
            def: self.def@,
            map: self.map@,
            rev: self.rev@,
        }
    }
}

impl EnumCodecView {
    /// What the names of codes are is what the codes of names say.
    pub open spec fn wf(self) -> bool {
        is_reverse(self.map, self.rev)
    }

    /// `name` written in camel case is `value`.
    pub open spec fn camel_name(self, name: Seq<char>, value: Seq<char>) -> bool {
        self.map.dom().contains(name) && camel_case(name) == value
    }

    /// What a value may decode to: the name of its code; else the default where
    /// there is no code; else the name that it is; else a name that it is in
    /// camel case.
    pub open spec fn decodes_to(self, value: Seq<char>, name: Seq<char>) -> bool {
        let code = second_part(value);
        if self.rev.dom().contains(code) {
            name == self.rev[code]
        } else if code.len() == 0 {
            name == self.def
        } else if self.map.dom().contains(code) {
            name == code
        } else {
            self.camel_name(name, code)
        }
    }

    /// The value decodes to something.
    pub open spec fn decodable(self, value: Seq<char>) -> bool {
        let code = second_part(value);
        ||| self.rev.dom().contains(code)
        ||| code.len() == 0
        ||| self.map.dom().contains(code)
        ||| exists|name: Seq<char>| #[trigger] self.camel_name(name, code)
    }

    /// What a name, or no name, encodes to.
    pub open spec fn encoded(self, name: Option<Seq<char>>) -> Option<Seq<char>> {
        match name {
            Some(n) => if self.map.dom().contains(n) {
                Some(self.prefix + "."@ + self.map[n])
            } else {
                None
            },
            None => Some(
                self.prefix + "."@ + (if self.map.dom().contains(self.def) {
                    self.map[self.def]
                } else {
                    Seq::empty()
                }),
            ),
        }
    }
}

impl EnumCodec {
    /// An enumeration with the given prefix, default name and codes.
    pub fn new(prefix: &str, def: &str, map: Dict) -> (codec: EnumCodec)
        ensures
            codec@.prefix == prefix@,
            codec@.def == def@,
            codec@.map == map@,
            codec@.wf(),
    {
        let rev: Dict = rev_map(&map);
        EnumCodec { prefix: text::owned_text(prefix), def: text::owned_text(def), map, rev }
    }

    /// The name of a value.
    pub fn decode(&self, val: &str) -> (name: Result<String, String>)
        ensures
            match name {
                Ok(n) => self@.decodes_to(val@, n@),
                Err(message) => !self@.decodable(val@) && message@
                    == "Unrecognized value for enum: '"@ + val@ + "'"@,
            },
    {
        let code: String = second_part_of(val);
        match self.rev.get(code.as_str()) {
            Some(name) => {
                return Ok(text::owned_text(name.as_str()));
            },
            None => {},
        }
        if text::same_text(code.as_str(), "") {
            proof {
                reveal_strlit("");
            }
            return Ok(text::owned_text(self.def.as_str()));
        }
        assert(code@.len() != 0) by {
            reveal_strlit("");
            if code@.len() == 0 {
                assert(code@ =~= ""@);
            }
        }
        if self.map.get(code.as_str()).is_some() {
            return Ok(code);
        }
        let mut i: usize = 0;
        while i < self.map.entries.len()
            invariant
                i <= self.map.entries@.len(),
                forall|j: int|
                    0 <= j < i ==> camel_case(#[trigger] self.map.entries@[j].0@) != code@,
                code@ == second_part(val@),
                !self@.rev.dom().contains(code@),
                code@.len() != 0,
                !self@.map.dom().contains(code@),
            decreases self.map.entries@.len() - i,
        {
            let key: &String = &self.map.entries[i].0;
            let camel: String = camel_cased(key.as_str());
            if text::same_text(camel.as_str(), code.as_str()) {
                proof {
                    lemma_entry_present(self.map.entries@, i as int);
                    assert(self@.camel_name(key@, code@));
                }
                return Ok(text::owned_text(key.as_str()));
            }
            i += 1;
        }
        proof {
            assert forall|name: Seq<char>| !#[trigger] self@.camel_name(name, code@) by {
                if self@.map.dom().contains(name) {
                    let j = lemma_entries_index(self.map.entries@, name);
                    assert(camel_case(self.map.entries@[j].0@) != code@);
                }
            }
        }
        let mut message: String = text::owned_text("Unrecognized value for enum: '");
        text::push_text(&mut message, val);
        text::push_text(&mut message, "'");
        Err(message)
    }

    /// The value of a name; without a name that of the default.
    pub fn encode(&self, val: Option<&str>) -> (value: Result<String, String>)
        ensures
            match value {
                Ok(v) => self@.encoded(
                    match val {
                        Some(n) => Some(n@),
                        None => None,
                    },
                ) == Some(v@),
                Err(message) => val matches Some(n) && self@.encoded(Some(n@)) is None && message@
                    == "Invalid value for enum: '"@ + n@ + "'"@,
            },
    {
        let mut value: String = text::owned_text(self.prefix.as_str());
        text::push_text(&mut value, ".");
        match val {
            Some(name) => {
                match self.map.get(name) {
                    Some(code) => {
                        text::push_text(&mut value, code.as_str());
                        Ok(value)
                    },
                    None => {
                        let mut message: String = text::owned_text("Invalid value for enum: '");
                        text::push_text(&mut message, name);
                        text::push_text(&mut message, "'");
                        Err(message)
                    },
                }
            },
            None => {
                match self.map.get(self.def.as_str()) {
                    Some(code) => {
                        text::push_text(&mut value, code.as_str());
                    },
                    None => {
                        assert(value@ =~= value@ + Seq::<char>::empty());
                    },
                }
                Ok(value)
            },
        }
    }
}

/// No dot in a text.
pub open spec fn dotless(s: Seq<char>) -> bool {
    forall|i: int| 0 <= i < s.len() ==> #[trigger] s[i] != '.'
}

/// What stands behind the dot after a text without one.
pub proof fn lemma_after_dot(a: Seq<char>, b: Seq<char>)
    requires
        dotless(a),
    ensures
        after_dot(a + seq!['.'] + b) == b,
    decreases a.len(),
{
    let all = a + seq!['.'] + b;
    if a.len() == 0 {
        assert(all[0] == '.');
        assert(all.skip(1) =~= b);
    } else {
        assert(all[0] == a[0]);
        assert(all.skip(1) =~= a.skip(1) + seq!['.'] + b);
        assert forall|i: int| 0 <= i < a.skip(1).len() implies #[trigger] a.skip(1)[i] != '.' by {
            assert(a.skip(1)[i] == a[i + 1]);
        }
        lemma_after_dot(a.skip(1), b);
    }
}

/// A text without a dot is all that stands before one.
pub proof fn lemma_before_dot(a: Seq<char>)
    requires
        dotless(a),
    ensures
        before_dot(a) == a,
    decreases a.len(),
{
    if a.len() > 0 {
        assert forall|i: int| 0 <= i < a.skip(1).len() implies #[trigger] a.skip(1)[i] != '.' by {
            assert(a.skip(1)[i] == a[i + 1]);
        }
        lemma_before_dot(a.skip(1));
        assert(seq![a[0]] + a.skip(1) =~= a);
    }
}

/// What a name encodes to decodes to a name with the same code: to the name
/// itself where no other name has its code.
pub proof fn law_enum_round_trip(codec: EnumCodecView, name: Seq<char>, back: Seq<char>)
    requires
        codec.wf(),
        codec.map.dom().contains(name),
        dotless(codec.prefix),
        dotless(codec.map[name]),
        codec.decodes_to(codec.encoded(Some(name))->Some_0, back),
    ensures
        codec.map.dom().contains(back),
        codec.map[back] == codec.map[name],
{
    reveal_strlit(".");
    assert("."@ =~= seq!['.']);
    lemma_after_dot(codec.prefix, codec.map[name]);
    lemma_before_dot(codec.map[name]);
}

} // verus!
