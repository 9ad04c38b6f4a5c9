//! Level objects and the level string that lists them.

use std::collections::HashMap;
use vstd::prelude::*;
use vstd::std_specs::iter::IteratorSpec;

verus! {

broadcast use vstd::std_specs::hash::group_hash_axioms;

/// The character of the decimal digit `d`.
pub open spec fn digit_char(d: int) -> char {
    (48 + d) as char
}

/// The decimal text of `n`, without leading zeros.
pub open spec fn decimal_text(n: u8) -> Seq<char> {
    if n < 10 {
        seq![digit_char(n as int)]
    } else if n < 100 {
        seq![digit_char((n / 10) as int), digit_char((n % 10) as int)]
    } else {
        seq![digit_char((n / 100) as int), digit_char(((n / 10) % 10) as int), digit_char((n % 10) as int)]
    }
}

/// A decimal digit character.
pub open spec fn is_digit(c: char) -> bool {
    '0' <= c && c <= '9'
}

/// The number that the digit characters `s` spell in decimal, most
/// significant digit first.
pub open spec fn decimal_value(s: Seq<char>) -> int
    decreases s.len(),
{
    if s.len() == 0 {
        0
    } else {
        decimal_value(s.drop_last()) * 10 + (s.last() as int - 48)
    }
}

/// `decimal_text(n)` is the decimal numeral of `n`: one to three digit
/// characters that spell `n`, with no leading zero unless `n` is zero.
pub proof fn decimal_text_is_the_numeral(n: u8)
    ensures
        1 <= decimal_text(n).len() <= 3,
        forall|i: int| 0 <= i < decimal_text(n).len() ==> is_digit(#[trigger] decimal_text(n)[i]),
        decimal_value(decimal_text(n)) == n,
        decimal_text(n)[0] == '0' ==> n == 0,
{
    let t = decimal_text(n);
    let a = (n / 100) as int;
    let b = ((n / 10) % 10) as int;
    let c = (n % 10) as int;
    assert(digit_char(a) as int == 48 + a);
    assert(digit_char(b) as int == 48 + b);
    assert(digit_char(c) as int == 48 + c);
    assert(digit_char((n / 10) as int) as int == 48 + n / 10) by {
        if n < 100 {
        }
    }
    reveal_with_fuel(decimal_value, 4);
    if n < 10 {
        assert(t.drop_last() =~= Seq::<char>::empty());
    } else if n < 100 {
        assert(t.drop_last() =~= seq![digit_char((n / 10) as int)]);
        assert(t.drop_last().drop_last() =~= Seq::<char>::empty());
    } else {
        assert(t.drop_last() =~= seq![digit_char(a), digit_char(b)]);
        assert(t.drop_last().drop_last() =~= seq![digit_char(a)]);
        assert(t.drop_last().drop_last().drop_last() =~= Seq::<char>::empty());
    }
}

/// The text of one decimal digit.
fn digit_str(d: u8) -> (res: &'static str)
    requires
        d < 10,
    ensures
        res@ == seq![digit_char(d as int)],
{
    proof {
        reveal_strlit("0");
        reveal_strlit("1");
        reveal_strlit("2");
        reveal_strlit("3");
        reveal_strlit("4");
        reveal_strlit("5");
        reveal_strlit("6");
        reveal_strlit("7");
        reveal_strlit("8");
        reveal_strlit("9");
    }
    match d {
        0 => "0",
        1 => "1",
        2 => "2",
        3 => "3",
        4 => "4",
        5 => "5",
        6 => "6",
        7 => "7",
        8 => "8",
        _ => "9",
    }
}

/// Appends the decimal text of `n` to `out`.
pub fn push_decimal(out: &mut String, n: u8)
    ensures
        final(out)@ == old(out)@ + decimal_text(n),
{
    if n >= 100 {
        out.append(digit_str(n / 100));
    }
    if n >= 10 {
        out.append(digit_str((n / 10) % 10));
    }
    out.append(digit_str(n % 10));
    assert(final(out)@ =~= old(out)@ + decimal_text(n));
}


/// The keys of `m`, each exactly once, in some order.
pub open spec fn lists_keys(m: Map<u8, Seq<char>>, keys: Seq<u8>) -> bool {
    &&& keys.no_duplicates()
    &&& forall|k: u8| m.contains_key(k) <==> keys.contains(k)
}

/// The text of one property: its key in decimal, a comma, its value and a
/// comma.
pub open spec fn prop_text(key: u8, value: Seq<char>) -> Seq<char> {
    decimal_text(key) + seq![','] + value + seq![',']
}

/// The texts of the properties of `m` under `keys`, in that order.
pub open spec fn props_text(m: Map<u8, Seq<char>>, keys: Seq<u8>) -> Seq<char>
    decreases keys.len(),
{
    if keys.len() == 0 {
        Seq::empty()
    } else {
        props_text(m, keys.drop_last()) + prop_text(keys.last(), m[keys.last()])
    }
}

/// The text of an object whose properties are listed in the order `keys`:
/// the property texts followed by `;`.
pub open spec fn object_text(m: Map<u8, Seq<char>>, keys: Seq<u8>) -> Seq<char> {
    props_text(m, keys) + seq![';']
}

/// `s` is the text of an object with properties `m`, its properties listed
/// in one order or another.
pub open spec fn is_object_text(m: Map<u8, Seq<char>>, s: Seq<char>) -> bool {
    exists|keys: Seq<u8>| lists_keys(m, keys) && s == object_text(m, keys)
}

/// Walking a hash map whose items are `items` visits every key once.
proof fn lemma_iteration_lists_keys(m: Map<u8, String>, items: Seq<(&u8, &String)>, keys: Seq<u8>)
    requires
        items.no_duplicates(),
        items.len() == m.dom().len(),
        forall|i: int| 0 <= i < items.len() ==> m.contains_key(*items[i].0) && m[*items[i].0] == *items[i].1,
        forall|k: u8| #[trigger] m.contains_key(k) ==> items.contains((&k, &m[k])),
        keys.len() == items.len(),
        forall|j: int| 0 <= j < keys.len() ==> keys[j] == *items[j].0,
    ensures
        lists_keys(m.map_values(|v: String| v@), keys),
{
    assert forall|i: int, j: int| 0 <= i < keys.len() && 0 <= j < keys.len() && i != j implies keys[i] != keys[j] by {
        if keys[i] == keys[j] {
            assert(items[i] == items[j]);
        }
    }
    assert forall|k: u8| m.map_values(|v: String| v@).contains_key(k) <==> keys.contains(k) by {
        if m.contains_key(k) {
            let j = choose|j: int| 0 <= j < items.len() && items[j] == (&k, &m[k]);
            assert(keys[j] == k);
        }
        if keys.contains(k) {
            let j = choose|j: int| 0 <= j < keys.len() && keys[j] == k;
            assert(m.contains_key(*items[j].0));
        }
    }
}

/// The texts of the properties of `m` under `keys`, one per key, in order.
pub open spec fn prop_texts(m: Map<u8, Seq<char>>, keys: Seq<u8>) -> Seq<Seq<char>> {
    Seq::new(keys.len(), |i: int| prop_text(keys[i], m[keys[i]]))
}

/// The text of a property is its key's decimal numeral, a comma, its value
/// and a comma.
pub proof fn prop_text_parts(key: u8, value: Seq<char>)
    ensures
        ({
            let t = prop_text(key, value);
            let d = decimal_text(key).len() as int;
            &&& t.len() == d + value.len() + 2
            &&& t.take(d as int) == decimal_text(key)
            &&& t[d as int] == ','
            &&& t.subrange(d + 1, d + 1 + value.len()) == value
            &&& t[d + 1 + value.len()] == ','
        }),
{
    let t = prop_text(key, value);
    let d = decimal_text(key).len() as int;
    assert(t.take(d as int) =~= decimal_text(key));
    assert(t.subrange(d + 1, d + 1 + value.len()) =~= value);
}

/// Listing properties one after another joins their texts.
proof fn lemma_props_text_joins(m: Map<u8, Seq<char>>, keys: Seq<u8>)
    ensures
        props_text(m, keys) == concat_texts(prop_texts(m, keys)),
    decreases keys.len(),
{
    if keys.len() > 0 {
        lemma_props_text_joins(m, keys.drop_last());
        assert(prop_texts(m, keys).drop_last() =~= prop_texts(m, keys.drop_last()));
    } else {
        assert(prop_texts(m, keys) =~= Seq::<Seq<char>>::empty());
    }
}

/// An object's text holds the text of every one of its properties: it ends
/// with `;`, it is as long as the property texts together plus one, the
/// property texts stand in it one after another in the order of a listing
/// of the keys, and so the text of each property occurs in it.
pub proof fn object_text_holds_every_property(m: Map<u8, Seq<char>>, s: Seq<char>)
    requires
        is_object_text(m, s),
    ensures
        s.len() >= 1,
        s.last() == ';',
        exists|keys: Seq<u8>|
            {
                &&& lists_keys(m, keys)
                &&& s.len() == 1 + total_len(prop_texts(m, keys))
                &&& forall|i: int|
                    0 <= i < keys.len() ==> s.subrange(
                        total_len(prop_texts(m, keys).take(i)),
                        total_len(prop_texts(m, keys).take(i)) + prop_text(keys[i], m[keys[i]]).len(),
                    ) == #[trigger] prop_text(keys[i], m[keys[i]])
            },
        forall|k: u8|
            #[trigger] m.contains_key(k) ==> exists|off: int|
                0 <= off && off + prop_text(k, m[k]).len() <= s.len() && #[trigger] s.subrange(
                    off,
                    off + prop_text(k, m[k]).len(),
                ) == prop_text(k, m[k]),
{
    let keys = choose|keys: Seq<u8>| lists_keys(m, keys) && s == object_text(m, keys);
    let ps = prop_texts(m, keys);
    lemma_props_text_joins(m, keys);
    concat_texts_places_each_part(ps);
    let c = concat_texts(ps);
    assert(s == c + seq![';']);
    assert forall|i: int| 0 <= i < keys.len() implies s.subrange(
        total_len(ps.take(i)),
        total_len(ps.take(i)) + prop_text(keys[i], m[keys[i]]).len(),
    ) == #[trigger] prop_text(keys[i], m[keys[i]]) by {
        let lo = total_len(ps.take(i));
        let hi = lo + ps[i].len();
        assert(ps[i] == prop_text(keys[i], m[keys[i]]));
        assert(c.subrange(lo, hi) == ps[i]);
        lemma_total_len_prefix(ps, i);
        lemma_total_len_prefix(ps, i + 1);
        assert(ps.take(i + 1).drop_last() =~= ps.take(i));
        assert(s.subrange(lo, hi) =~= c.subrange(lo, hi));
    }
    assert forall|k: u8| #[trigger] m.contains_key(k) implies exists|off: int|
        0 <= off && off + prop_text(k, m[k]).len() <= s.len() && #[trigger] s.subrange(
            off,
            off + prop_text(k, m[k]).len(),
        ) == prop_text(k, m[k]) by {
        assert(keys.contains(k));
        let i = choose|i: int| 0 <= i < keys.len() && keys[i] == k;
        let lo = total_len(ps.take(i));
        lemma_total_len_prefix(ps, i);
        lemma_total_len_prefix(ps, i + 1);
        assert(ps.take(i + 1).drop_last() =~= ps.take(i));
        assert(ps[i] == prop_text(keys[i], m[keys[i]]));
        assert(s.subrange(lo, lo + prop_text(keys[i], m[keys[i]]).len()) == prop_text(keys[i], m[keys[i]]));
    }
}

/// One object of a level: a map from property keys to property values.
pub struct GDObject {
    props: HashMap<u8, String>,
}

impl View for GDObject {
    type V = Map<u8, Seq<char>>;

    closed spec fn view(&self) -> Map<u8, Seq<char>> {
        self.props@.map_values(|v: String| v@)
    }
}

impl GDObject {
    /// An object with object id `id`: property 1 holds `id`, and there is no
    /// other property.
    pub fn new(id: &str) -> (res: Self)
        ensures
            res@ == Map::<u8, Seq<char>>::empty().insert(1, id@),
    {
        let mut props = HashMap::<u8, String>::new();
        props.insert(1, id.to_string());
        let res = GDObject { props };
        assert(res@ =~= Map::<u8, Seq<char>>::empty().insert(1, id@));
        res
    }

    /// Sets property `key` to `value`, replacing any value it had.
    pub fn set_prop(&mut self, key: u8, value: &str)
        ensures
            final(self)@ == old(self)@.insert(key, value@),
    {
        self.props.insert(key, value.to_string());
        assert(final(self)@ =~= old(self)@.insert(key, value@));
    }

    /// The object's text: each property as `key,value,`, then `;`.
    pub fn get_obj_string(&self) -> (res: String)
        ensures
            is_object_text(self@, res@),
    {
        let mut obj_str = String::new();
        let ghost m = self.props@;
        let ghost items = vstd::std_specs::hash::spec_hash_map_iter(&self.props).remaining();
        let ghost mut keys: Seq<u8> = Seq::empty();
        for (key, val) in it: self.props.iter()
            invariant
                it.seq() == items,
                m == self.props@,
                keys.len() == it.index(),
                forall|j: int| 0 <= j < it.index() ==> keys[j] == *items[j].0,
                obj_str@ == props_text(self@, keys),
        {
            assert(m.contains_key(*key) && m[*key] == *val);
            let ghost before = obj_str@;
            push_decimal(&mut obj_str, *key);
            obj_str.append(",");
            obj_str.append(val.as_str());
            obj_str.append(",");
            proof {
                reveal_strlit(",");
                let k = *key;
                let new_keys = keys.push(k);
                assert(new_keys.drop_last() =~= keys);
                assert(self@.contains_key(k));
                assert(self@[k] == val@);
                assert(obj_str@ =~= before + prop_text(k, self@[k]));
                keys = new_keys;
            }
        }
        obj_str.append(";");
        proof {
            reveal_strlit(";");
            lemma_iteration_lists_keys(m, items, keys);
        }
        assert(obj_str@ =~= object_text(self@, keys));
        obj_str
    }
}


/// An object with a single property has a single text: that property's
/// text followed by `;`.
pub proof fn single_property_text(key: u8, value: Seq<char>, s: Seq<char>)
    requires
        is_object_text(Map::<u8, Seq<char>>::empty().insert(key, value), s),
    ensures
        s == prop_text(key, value) + seq![';'],
{
    let m = Map::<u8, Seq<char>>::empty().insert(key, value);
    let keys = choose|keys: Seq<u8>| lists_keys(m, keys) && s == object_text(m, keys);
    assert(m.contains_key(key));
    assert(keys.contains(key));
    if keys.len() >= 2 {
        assert(keys.contains(keys[0]));
        assert(keys.contains(keys[1]));
        assert(m.contains_key(keys[0]));
        assert(m.contains_key(keys[1]));
    }
    assert(keys.len() == 1);
    assert(keys[0] == key) by {
        assert(keys.contains(keys[0]));
        assert(m.contains_key(keys[0]));
    }
    assert(keys.drop_last() =~= Seq::<u8>::empty());
    assert(props_text(m, keys.drop_last()) == Seq::<char>::empty());
    assert(props_text(m, keys) =~= prop_text(key, value));
}

/// The texts `parts` one after another.
pub open spec fn concat_texts(parts: Seq<Seq<char>>) -> Seq<char>
    decreases parts.len(),
{
    if parts.len() == 0 {
        Seq::empty()
    } else {
        concat_texts(parts.drop_last()) + parts.last()
    }
}

/// The sum of the lengths of the texts `parts`.
pub open spec fn total_len(parts: Seq<Seq<char>>) -> int
    decreases parts.len(),
{
    if parts.len() == 0 {
        0
    } else {
        total_len(parts.drop_last()) + parts.last().len()
    }
}

/// The texts of a prefix of `parts` are no longer than the texts of all of
/// them.
proof fn lemma_total_len_prefix(parts: Seq<Seq<char>>, k: int)
    requires
        0 <= k <= parts.len(),
    ensures
        0 <= total_len(parts.take(k)) <= total_len(parts),
    decreases parts.len(),
{
    if k == parts.len() {
        assert(parts.take(k) =~= parts);
        lemma_total_len_nonneg(parts);
    } else {
        assert(parts.drop_last().take(k) =~= parts.take(k));
        lemma_total_len_prefix(parts.drop_last(), k);
    }
}

proof fn lemma_total_len_nonneg(parts: Seq<Seq<char>>)
    ensures
        total_len(parts) >= 0,
    decreases parts.len(),
{
    if parts.len() > 0 {
        lemma_total_len_nonneg(parts.drop_last());
    }
}

/// Joining texts keeps every one of them: the result is as long as all the
/// texts together, and text `i` stands in it, unchanged, right after the
/// texts before it.
pub proof fn concat_texts_places_each_part(parts: Seq<Seq<char>>)
    ensures
        concat_texts(parts).len() == total_len(parts),
        forall|i: int|
            0 <= i < parts.len() ==> concat_texts(parts).subrange(
                total_len(parts.take(i)),
                total_len(parts.take(i)) + parts[i].len(),
            ) == #[trigger] parts[i],
    decreases parts.len(),
{
    if parts.len() > 0 {
        let init = parts.drop_last();
        concat_texts_places_each_part(init);
        let c = concat_texts(parts);
        let ci = concat_texts(init);
        assert(c == ci + parts.last());
        assert forall|i: int| 0 <= i < parts.len() implies c.subrange(
            total_len(parts.take(i)),
            total_len(parts.take(i)) + parts[i].len(),
        ) == #[trigger] parts[i] by {
            if i < parts.len() - 1 {
                assert(parts.take(i) =~= init.take(i));
                assert(init.take(i + 1).drop_last() =~= init.take(i));
                lemma_total_len_prefix(init, i);
                lemma_total_len_prefix(init, i + 1);
                assert(total_len(init.take(i + 1)) == total_len(init.take(i)) + init[i].len());
                let lo = total_len(parts.take(i));
                let hi = lo + parts[i].len();
                assert(c.subrange(lo, hi) =~= ci.subrange(lo, hi));
            } else {
                assert(parts.take(i) =~= init);
                lemma_total_len_nonneg(init);
                assert(c.subrange(total_len(init), total_len(init) + parts.last().len()) =~= parts.last());
            }
        }
    }
}

/// `s` is the text of a level whose objects have the properties `objects`:
/// `;` followed by the text of each object, in the order of the objects.
pub open spec fn is_level_text(objects: Seq<Map<u8, Seq<char>>>, s: Seq<char>) -> bool {
    exists|parts: Seq<Seq<char>>|
        {
            &&& parts.len() == objects.len()
            &&& forall|i: int| 0 <= i < parts.len() ==> is_object_text(objects[i], #[trigger] parts[i])
            &&& s == seq![';'] + concat_texts(parts)
        }
}

/// A level's text holds the text of every object, in order: it is `;`
/// followed by the texts, as long as all of them together plus one, and the
/// text of object `i` stands right after `;` and the texts of the objects
/// before it.
pub proof fn level_text_holds_every_object(objects: Seq<Map<u8, Seq<char>>>, s: Seq<char>)
    requires
        is_level_text(objects, s),
    ensures
        exists|parts: Seq<Seq<char>>|
            {
                &&& parts.len() == objects.len()
                &&& forall|i: int| 0 <= i < parts.len() ==> is_object_text(objects[i], #[trigger] parts[i])
                &&& s.len() == 1 + total_len(parts)
                &&& s[0] == ';'
                &&& forall|i: int|
                    0 <= i < parts.len() ==> s.subrange(
                        1 + total_len(parts.take(i)),
                        1 + total_len(parts.take(i)) + parts[i].len(),
                    ) == #[trigger] parts[i]
            },
{
    let parts = choose|parts: Seq<Seq<char>>|
        {
            &&& parts.len() == objects.len()
            &&& forall|i: int| 0 <= i < parts.len() ==> is_object_text(objects[i], #[trigger] parts[i])
            &&& s == seq![';'] + concat_texts(parts)
        };
    concat_texts_places_each_part(parts);
    let c = concat_texts(parts);
    assert forall|i: int| 0 <= i < parts.len() implies s.subrange(
        1 + total_len(parts.take(i)),
        1 + total_len(parts.take(i)) + parts[i].len(),
    ) == #[trigger] parts[i] by {
        let lo = total_len(parts.take(i));
        let hi = lo + parts[i].len();
        assert(c.subrange(lo, hi) == parts[i]);
        lemma_total_len_prefix(parts, i);
        lemma_total_len_prefix(parts, i + 1);
        assert(parts.take(i + 1).drop_last() =~= parts.take(i));
        assert(s.subrange(1 + lo, 1 + hi) =~= c.subrange(lo, hi));
    }
}

/// The properties of each object of `objects`, in order.
pub open spec fn object_views(objects: Seq<GDObject>) -> Seq<Map<u8, Seq<char>>> {
    objects.map_values(|o: GDObject| o@)
}

/// The level string of `objects`: `;` followed by the text of each object.
pub fn create_level_string(objects: Vec<GDObject>) -> (res: String)
    ensures
        is_level_text(object_views(objects@), res@),
{
    let mut levelstring = String::new();
    levelstring.append(";");
    proof {
        reveal_strlit(";");
    }
    let ghost mut parts: Seq<Seq<char>> = Seq::empty();
    let n = objects.len();
    for i in 0..n
        invariant
            n == objects.len(),
            parts.len() == i,
            forall|j: int| 0 <= j < i ==> is_object_text(objects@[j]@, #[trigger] parts[j]),
            levelstring@ == seq![';'] + concat_texts(parts),
    {
        let text = objects[i].get_obj_string();
        levelstring.append(text.as_str());
        proof {
            let new_parts = parts.push(text@);
            assert(new_parts.drop_last() =~= parts);
            assert(levelstring@ =~= seq![';'] + concat_texts(new_parts));
            parts = new_parts;
        }
    }
    assert(is_level_text(object_views(objects@), levelstring@)) by {
        assert forall|j: int| 0 <= j < parts.len() implies is_object_text(object_views(objects@)[j], #[trigger] parts[j]) by {
            assert(object_views(objects@)[j] == objects@[j]@);
        }
    }
    levelstring
}

} // verus!
