//! The payload of an answer frame: where it starts, how it splits into items
//! and what the items hold.

use crate::openmetrics::{number_of, Number, NumberView};
use crate::text::{chars_of, same_text, text_of, texts};
use crate::textmap::{as_map, has_key, lemma_one_slot, value_of, TextMap};
use vstd::prelude::*;
use vstd::slice::slice_subrange;
use vstd::utf8::{decode_utf8, valid_utf8};

verus! {

/// The line feed that ends the echoed command of an answer frame.
pub const LINE_FEED: u8 = 10;

/// The character that separates the items of a payload.
pub const ITEM_SEPARATOR: char = '\u{1}';

/// The statistics of one answer, by name.
pub type Stats = TextMap<Number>;

/// `std::str::from_utf8` accepts exactly the byte sequences that are valid
/// UTF-8 and hands them back as the text that they encode.
#[verifier::external_body]
fn utf8_text(bytes: &[u8]) -> (r: Option<&str>)
    ensures
        r is Some <==> valid_utf8(bytes@),
        r matches Some(s) ==> s@ == decode_utf8(bytes@),
{
    std::str::from_utf8(bytes).ok()
}

/// The place of the first `b` in `s`; the length of `s` where there is none.
pub open spec fn first_byte(s: Seq<u8>, b: u8) -> int
    decreases s.len(),
{
    if s.len() == 0 || s[0] == b {
        0
    } else {
        1 + first_byte(s.drop_first(), b)
    }
}

/// The place of the first `c` in `s`; the length of `s` where there is none.
pub open spec fn first_index(s: Seq<char>, c: char) -> int
    decreases s.len(),
{
    if s.len() == 0 || s[0] == c {
        0
    } else {
        1 + first_index(s.drop_first(), c)
    }
}

/// The pieces of `s` between the occurrences of `c`: one more piece than
/// there are occurrences.
pub open spec fn split(s: Seq<char>, c: char) -> Seq<Seq<char>>
    decreases s.len(),
{
    let i = first_index(s, c);
    if 0 <= i < s.len() {
        seq![s.take(i)] + split(s.skip(i + 1), c)
    } else {
        seq![s]
    }
}

/// The two parts of `s` around its first `c`, where it holds one.
pub open spec fn split_once(s: Seq<char>, c: char) -> Option<(Seq<char>, Seq<char>)> {
    let i = first_index(s, c);
    if 0 <= i < s.len() {
        Some((s.take(i), s.skip(i + 1)))
    } else {
        None
    }
}

/// The payload of an answer frame, as text: what follows the first line
/// feed, where there is one and what follows is valid UTF-8.
pub open spec fn payload_text(frame: Seq<u8>) -> Option<Seq<char>> {
    let i = first_byte(frame, LINE_FEED);
    if 0 <= i < frame.len() && valid_utf8(frame.skip(i + 1)) {
        Some(decode_utf8(frame.skip(i + 1)))
    } else {
        None
    }
}

/// The statistic that an item of the form `key:value` holds: the key is what
/// stands before the first colon, the value a number.
pub open spec fn stat_of(item: Seq<char>) -> Option<(Seq<char>, NumberView)> {
    match split_once(item, ':') {
        Some((key, value)) => match number_of(value) {
            Some(n) => Some((key, n)),
            None => None,
        },
        None => None,
    }
}

/// The statistics that a sequence of items holds: items that hold none are
/// passed over, and of two items with one key the later one counts.
pub open spec fn stats_of(items: Seq<Seq<char>>) -> Map<Seq<char>, NumberView>
    decreases items.len(),
{
    if items.len() == 0 {
        Map::empty()
    } else {
        let before = stats_of(items.drop_last());
        match stat_of(items.last()) {
            Some((key, n)) => before.insert(key, n),
            None => before,
        }
    }
}

/// The statistics that an answer frame holds, where it has a payload.
pub open spec fn decoded_stats(frame: Seq<u8>) -> Option<Map<Seq<char>, NumberView>> {
    match payload_text(frame) {
        Some(text) => Some(stats_of(split(text, ITEM_SEPARATOR))),
        None => None,
    }
}

/// The identifier that an item of the form `key:type:value` holds: the value,
/// where the key is `Identifier` and the type is `string`.
pub open spec fn identifier_of(item: Seq<char>) -> Option<Seq<char>> {
    match split_once(item, ':') {
        Some((key, rest)) => match split_once(rest, ':') {
            Some((kind, value)) => if key == "Identifier"@ && kind == "string"@ {
                Some(value)
            } else {
                None
            },
            None => None,
        },
        None => None,
    }
}

/// The identifier that the first item with one holds.
pub open spec fn identifier_in(items: Seq<Seq<char>>) -> Option<Seq<char>>
    decreases items.len(),
{
    if items.len() == 0 {
        None
    } else {
        match identifier_of(items[0]) {
            Some(value) => Some(value),
            None => identifier_in(items.drop_first()),
        }
    }
}

/// The identifier that an answer frame holds, where it has a payload with an
/// identifier in it.
pub open spec fn decoded_identifier(frame: Seq<u8>) -> Option<Seq<char>> {
    match payload_text(frame) {
        Some(text) => identifier_in(split(text, ITEM_SEPARATOR)),
        None => None,
    }
}

/// The statistics of a map, each number as its users see it.
pub open spec fn stats_view(stats: Seq<(Seq<char>, Number)>) -> Map<Seq<char>, NumberView> {
    Map::new(|k: Seq<char>| has_key(stats, k), |k: Seq<char>| value_of(stats, k)@)
}

/// Every number of the map is a well-formed sample value.
pub open spec fn stats_wf(stats: Seq<(Seq<char>, Number)>) -> bool {
    forall|i: int| 0 <= i < stats.len() ==> (#[trigger] stats[i]).1@.wf()
}

/// Where no `c` stands before place `k`, the first `c` stands at `k` if one
/// stands there, and nowhere if `k` is the end.
pub proof fn lemma_first_index(s: Seq<char>, c: char, k: int)
    requires
        0 <= k <= s.len(),
        forall|j: int| 0 <= j < k ==> s[j] != c,
        k < s.len() ==> s[k] == c,
    ensures
        first_index(s, c) == k,
    decreases k,
{
    if k > 0 {
        let rest = s.drop_first();
        assert forall|j: int| 0 <= j < k - 1 implies rest[j] != c by {
            assert(rest[j] == s[j + 1]);
        }
        lemma_first_index(rest, c, k - 1);
    }
}

/// Where no `b` stands before place `k`, the first `b` stands at `k` if one
/// stands there, and nowhere if `k` is the end.
pub proof fn lemma_first_byte(s: Seq<u8>, b: u8, k: int)
    requires
        0 <= k <= s.len(),
        forall|j: int| 0 <= j < k ==> s[j] != b,
        k < s.len() ==> s[k] == b,
    ensures
        first_byte(s, b) == k,
    decreases k,
{
    if k > 0 {
        let rest = s.drop_first();
        assert forall|j: int| 0 <= j < k - 1 implies rest[j] != b by {
            assert(rest[j] == s[j + 1]);
        }
        lemma_first_byte(rest, b, k - 1);
    }
}

/// The place of the first `c` at or after `from`; the length where there is
/// none.
fn find_char(chars: &Vec<char>, from: usize, c: char) -> (at: usize)
    requires
        from <= chars.len(),
    ensures
        from <= at <= chars.len(),
        at - from == first_index(chars@.skip(from as int), c),
{
    let mut i: usize = from;
    while i < chars.len() && chars[i] != c
        invariant
            from <= i <= chars.len(),
            forall|j: int| from <= j < i ==> chars@[j] != c,
        decreases chars.len() - i,
    {
        i += 1;
    }
    proof {
        let s = chars@.skip(from as int);
        assert forall|j: int| 0 <= j < i - from implies s[j] != c by {
            assert(s[j] == chars@[from + j]);
        }
        lemma_first_index(s, c, i - from);
    }
    i
}

/// The payload of an answer frame, as text.
pub fn payload_of(frame: &[u8]) -> (r: Option<&str>)
    ensures
        match r {
            Some(text) => payload_text(frame@) == Some(text@),
            None => payload_text(frame@) is None,
        },
{
    let mut i: usize = 0;
    while i < frame.len() && frame[i] != LINE_FEED
        invariant
            i <= frame.len(),
            forall|j: int| 0 <= j < i ==> frame@[j] != LINE_FEED,
        decreases frame.len() - i,
    {
        i += 1;
    }
    proof {
        lemma_first_byte(frame@, LINE_FEED, i as int);
    }
    if i == frame.len() {
        return None;
    }
    let rest = slice_subrange(frame, i + 1, frame.len());
    assert(rest@ =~= frame@.skip(i + 1));
    utf8_text(rest)
}

/// The pieces of `text` between the occurrences of `separator`.
pub fn split_text(text: &str, separator: char) -> (pieces: Vec<String>)
    ensures
        texts(pieces@) == split(text@, separator),
{
    let chars = chars_of(text);
    let mut pieces: Vec<String> = Vec::new();
    let mut start: usize = 0;
    proof {
        assert(chars@.skip(0) =~= chars@);
        assert(texts(pieces@) + split(chars@.skip(0), separator) =~= split(chars@, separator));
    }
    loop
        invariant_except_break
            start <= chars.len(),
            split(chars@, separator) == texts(pieces@) + split(
                chars@.skip(start as int),
                separator,
            ),
        invariant
            chars@ == text@,
        ensures
            texts(pieces@) == split(chars@, separator),
        decreases chars.len() - start,
    {
        let at = find_char(&chars, start, separator);
        let ghost rest = chars@.skip(start as int);
        let ghost before = texts(pieces@);
        let piece = text_of(&chars, start, at);
        assert(piece@ =~= rest.take(at - start));
        pieces.push(piece);
        assert(texts(pieces@) =~= before.push(rest.take(at - start)));
        if at == chars.len() {
            proof {
                assert(rest.take(at - start) =~= rest);
                assert(split(rest, separator) =~= seq![rest]);
                assert(before.push(rest) =~= before + seq![rest]);
            }
            break ;
        }
        proof {
            assert(rest.skip(at - start + 1) =~= chars@.skip(at + 1));
            assert(before + (seq![rest.take(at - start)] + split(
                chars@.skip(at + 1),
                separator,
            )) =~= before.push(rest.take(at - start)) + split(chars@.skip(at + 1), separator));
        }
        start = at + 1;
    }
    pieces
}

/// The two parts of `text` around its first `separator`, where it holds one.
pub fn split_once_text(text: &str, separator: char) -> (r: Option<(String, String)>)
    ensures
        match r {
            Some((head, tail)) => split_once(text@, separator) == Some((head@, tail@)),
            None => split_once(text@, separator) is None,
        },
{
    let chars = chars_of(text);
    assert(chars@.skip(0) =~= chars@);
    let at = find_char(&chars, 0, separator);
    if at == chars.len() {
        None
    } else {
        let head = text_of(&chars, 0, at);
        let tail = text_of(&chars, at + 1, chars.len());
        assert(head@ =~= chars@.take(at as int));
        assert(tail@ =~= chars@.skip(at + 1));
        Some((head, tail))
    }
}

/// The statistic that an item holds, where it holds one.
pub fn read_stat(item: &str) -> (r: Option<(String, Number)>)
    ensures
        match r {
            Some((key, n)) => stat_of(item@) == Some((key@, n@)) && n@.wf(),
            None => stat_of(item@) is None,
        },
{
    match split_once_text(item, ':') {
        Some((key, value)) => match Number::parse(value.as_str()) {
            Some(n) => Some((key, n)),
            None => None,
        },
        None => None,
    }
}

/// Decodes the statistics of an answer frame: the payload is what follows
/// the first line feed, its items are separated by U+0001 and have the form
/// `key:value`. Items without a colon or without a number are passed over,
/// and of two items with one key the later one counts. There is nothing to
/// decode where the frame has no line feed or the payload is not UTF-8.
pub fn decode_stats(response: &[u8]) -> (r: Option<Stats>)
    ensures
        match r {
            Some(stats) => stats.wf() && stats_wf(stats@) && decoded_stats(response@) == Some(
                stats_view(stats@),
            ),
            None => decoded_stats(response@) is None,
        },
{
    let text = match payload_of(response) {
        Some(t) => t,
        None => {
            return None;
        },
    };
    let items = split_text(text, ITEM_SEPARATOR);
    let mut stats: Stats = TextMap::new();
    let mut i: usize = 0;
    assert(texts(items@).take(0) =~= Seq::<Seq<char>>::empty());
    assert(stats_view(stats@) =~= stats_of(texts(items@).take(0)));
    while i < items.len()
        invariant
            i <= items.len(),
            stats.wf(),
            stats_wf(stats@),
            stats_view(stats@) == stats_of(texts(items@).take(i as int)),
        decreases items.len() - i,
    {
        let ghost done = texts(items@).take(i as int);
        let ghost next = texts(items@).take(i + 1);
        proof {
            assert(next.drop_last() =~= done);
            assert(next.last() == items@[i as int]@);
        }
        match read_stat(items[i].as_str()) {
            Some((key, n)) => {
                let ghost before = stats@;
                let ghost key_view = key@;
                let ghost n_value = n;
                stats.insert(key, n);
                proof {
                    lemma_stats_insert(before, stats@, key_view, n_value);
                }
            },
            None => {},
        }
        i += 1;
    }
    assert(texts(items@).take(i as int) =~= texts(items@));
    Some(stats)
}

/// Giving a key a number in the map gives it the number's view in the view
/// of the map, and keeps the numbers well formed.
proof fn lemma_stats_insert(
    before: Seq<(Seq<char>, Number)>,
    after: Seq<(Seq<char>, Number)>,
    key: Seq<char>,
    n: Number,
)
    requires
        crate::textmap::keys_ascend(before),
        crate::textmap::keys_ascend(after),
        as_map(after) == as_map(before).insert(key, n),
        stats_wf(before),
        n@.wf(),
    ensures
        stats_view(after) == stats_view(before).insert(key, n@),
        stats_wf(after),
{
    assert forall|k: Seq<char>| has_key(after, k) == (k == key || has_key(before, k)) by {
        assert(as_map(after).contains_key(k) == has_key(after, k));
        assert(as_map(before).contains_key(k) == has_key(before, k));
        assert(as_map(before).insert(key, n).contains_key(k) == (k == key || as_map(
            before,
        ).contains_key(k)));
    }
    assert forall|k: Seq<char>| has_key(after, k) implies value_of(after, k)@ == stats_view(
        before,
    ).insert(key, n@)[k] by {
        assert(as_map(after).contains_key(k));
        assert(as_map(after)[k] == value_of(after, k));
        assert(as_map(after)[k] == as_map(before).insert(key, n)[k]);
        if k != key {
            assert(as_map(before).contains_key(k));
            assert(as_map(before)[k] == value_of(before, k));
        }
    }
    assert(stats_view(after) =~= stats_view(before).insert(key, n@));
    assert forall|i: int| 0 <= i < after.len() implies (#[trigger] after[i]).1@.wf() by {
        lemma_one_slot(after, i);
        let k = after[i].0;
        assert(as_map(after).contains_key(k));
        assert(as_map(after)[k] == value_of(after, k));
        assert(as_map(after)[k] == as_map(before).insert(key, n)[k]);
        if k != key {
            assert(has_key(before, k));
            assert(as_map(before).contains_key(k));
            assert(as_map(before)[k] == value_of(before, k));
            let j = crate::textmap::slot_of(before, k);
            assert(before[j].1@.wf());
        }
    }
}

/// Extracts the identifier of an object from an answer frame: the payload
/// is what follows the first line feed, its items are separated by U+0001
/// and have the form `key:type:value`. The identifier is the value of the
/// first item whose key is `Identifier` and whose type is `string`.
pub fn extract_identifier(response: &[u8]) -> (r: Option<String>)
    ensures
        match r {
            Some(id) => decoded_identifier(response@) == Some(id@),
            None => decoded_identifier(response@) is None,
        },
{
    let text = match payload_of(response) {
        Some(t) => t,
        None => {
            return None;
        },
    };
    let items = split_text(text, ITEM_SEPARATOR);
    let mut i: usize = 0;
    assert(texts(items@).skip(0) =~= texts(items@));
    while i < items.len()
        invariant
            i <= items.len(),
            decoded_identifier(response@) == identifier_in(texts(items@)),
            identifier_in(texts(items@)) == identifier_in(texts(items@).skip(i as int)),
        decreases items.len() - i,
    {
        let ghost rest = texts(items@).skip(i as int);
        proof {
            assert(rest[0] == items@[i as int]@);
            assert(rest.drop_first() =~= texts(items@).skip(i + 1));
        }
        match split_once_text(items[i].as_str(), ':') {
            Some((key, tail)) => match split_once_text(tail.as_str(), ':') {
                Some((kind, value)) => {
                    if same_text(key.as_str(), "Identifier") && same_text(
                        kind.as_str(),
                        "string",
                    ) {
                        return Some(value);
                    }
                },
                None => {},
            },
            None => {},
        }
        i += 1;
    }
    None
}

/// No character of `s` is `c`.
pub open spec fn free_of(s: Seq<char>, c: char) -> bool {
    forall|i: int| 0 <= i < s.len() ==> s[i] != c
}

/// The item that holds a statistic: the key, a colon and the text of the
/// number.
pub open spec fn stat_item(stat: (Seq<char>, NumberView)) -> Seq<char> {
    stat.0 + seq![':'] + stat.1.text()
}

/// The items joined by the separator `c`.
pub open spec fn joined(items: Seq<Seq<char>>, c: char) -> Seq<char>
    decreases items.len(),
{
    if items.len() == 0 {
        Seq::empty()
    } else if items.len() == 1 {
        items[0]
    } else {
        items[0] + seq![c] + joined(items.drop_first(), c)
    }
}

/// The payload that holds the statistics `stats`, one item for each, in
/// their order.
pub open spec fn stats_payload(stats: Seq<(Seq<char>, NumberView)>) -> Seq<char> {
    joined(stats.map_values(|stat: (Seq<char>, NumberView)| stat_item(stat)), ITEM_SEPARATOR)
}

/// The map that the statistics `stats` stand for: of two statistics with one
/// key the later one counts.
pub open spec fn stats_map(stats: Seq<(Seq<char>, NumberView)>) -> Map<Seq<char>, NumberView>
    decreases stats.len(),
{
    if stats.len() == 0 {
        Map::empty()
    } else {
        stats_map(stats.drop_last()).insert(stats.last().0, stats.last().1)
    }
}

/// A statistic that can be written into a payload and read back: its key
/// holds neither a colon nor the separator of items, and its number is read
/// back from its text. Every integer is; a floating-point value is unless
/// its literal is an integer in range as well.
pub open spec fn writable(stat: (Seq<char>, NumberView)) -> bool {
    &&& free_of(stat.0, ':')
    &&& free_of(stat.0, ITEM_SEPARATOR)
    &&& number_of(stat.1.text()) == Some(stat.1)
}

/// An integer in range is read back from its text.
pub proof fn lemma_integer_is_writable(key: Seq<char>, v: i64)
    requires
        free_of(key, ':'),
        free_of(key, ITEM_SEPARATOR),
    ensures
        writable((key, NumberView::Integer(v as int))),
{
    crate::notation::lemma_integer_text_reads_back(v as int);
}

/// A floating-point literal that is no integer in range is read back as it
/// stands.
pub proof fn lemma_float_is_writable(key: Seq<char>, literal: Seq<char>)
    requires
        free_of(key, ':'),
        free_of(key, ITEM_SEPARATOR),
        crate::notation::is_float_literal(literal),
        crate::notation::parse_integer(literal) is None,
    ensures
        writable((key, NumberView::Float(literal))),
{
}

/// The text of a number that is read back from it holds no separator of
/// items.
proof fn lemma_number_text(n: NumberView)
    requires
        number_of(n.text()) == Some(n),
    ensures
        free_of(n.text(), ITEM_SEPARATOR),
{
    match n {
        NumberView::Integer(v) => {
            let text = crate::notation::integer_text(v);
            if v < 0 {
                crate::notation::lemma_decimal_denotes((-v) as nat);
                let digits = crate::notation::decimal((-v) as nat);
                assert forall|i: int| 0 <= i < text.len() implies text[i] != ITEM_SEPARATOR by {
                    if i > 0 {
                        assert(text[i] == digits[i - 1]);
                        assert(crate::notation::is_digit(digits[i - 1]));
                    }
                }
            } else {
                crate::notation::lemma_decimal_denotes(v as nat);
                let digits = crate::notation::decimal(v as nat);
                assert forall|i: int| 0 <= i < text.len() implies text[i] != ITEM_SEPARATOR by {
                    assert(crate::notation::is_digit(digits[i]));
                }
            }
        },
        NumberView::Float(literal) => {
            crate::notation::lemma_float_literal_chars(literal);
            assert forall|i: int| 0 <= i < literal.len() implies literal[i] != ITEM_SEPARATOR by {
                assert(crate::notation::is_number_char(literal[i]));
            }
        },
    }
}

/// The first separator after a text without one stands right behind it.
proof fn lemma_first_after(head: Seq<char>, c: char, tail: Seq<char>)
    requires
        free_of(head, c),
    ensures
        first_index(head + seq![c] + tail, c) == head.len(),
        (head + seq![c] + tail).take(head.len() as int) == head,
        (head + seq![c] + tail).skip(head.len() as int + 1) == tail,
{
    let whole = head + seq![c] + tail;
    assert forall|j: int| 0 <= j < head.len() implies whole[j] != c by {
        assert(whole[j] == head[j]);
    }
    assert(whole[head.len() as int] == c);
    lemma_first_index(whole, c, head.len() as int);
    assert(whole.take(head.len() as int) =~= head);
    assert(whole.skip(head.len() as int + 1) =~= tail);
}

/// Items without separator are the pieces of their joining.
pub proof fn lemma_split_joined(items: Seq<Seq<char>>, c: char)
    requires
        items.len() > 0,
        forall|i: int| 0 <= i < items.len() ==> free_of(#[trigger] items[i], c),
    ensures
        split(joined(items, c), c) == items,
    decreases items.len(),
{
    if items.len() == 1 {
        lemma_first_index(items[0], c, items[0].len() as int);
        assert(split(items[0], c) =~= items);
    } else {
        let rest = items.drop_first();
        assert forall|i: int| 0 <= i < rest.len() implies free_of(#[trigger] rest[i], c) by {
            assert(rest[i] == items[i + 1]);
        }
        lemma_split_joined(rest, c);
        lemma_first_after(items[0], c, joined(rest, c));
        assert(split(joined(items, c), c) =~= seq![items[0]] + rest);
        assert(seq![items[0]] + rest =~= items);
    }
}

/// The items of writable statistics hold the statistics.
proof fn lemma_items_hold(stats: Seq<(Seq<char>, NumberView)>)
    requires
        forall|i: int| 0 <= i < stats.len() ==> writable(#[trigger] stats[i]),
    ensures
        stats_of(stats.map_values(|stat: (Seq<char>, NumberView)| stat_item(stat))) == stats_map(
            stats,
        ),
    decreases stats.len(),
{
    let items = stats.map_values(|stat: (Seq<char>, NumberView)| stat_item(stat));
    if stats.len() > 0 {
        let before = stats.drop_last();
        assert forall|i: int| 0 <= i < before.len() implies writable(#[trigger] before[i]) by {
            assert(before[i] == stats[i]);
        }
        lemma_items_hold(before);
        assert(items.drop_last() =~= before.map_values(
            |stat: (Seq<char>, NumberView)| stat_item(stat),
        ));
        let last = stats.last();
        assert(writable(stats[stats.len() - 1]));
        assert(items.last() == stat_item(last));
        lemma_first_after(last.0, ':', last.1.text());
        assert(split_once(stat_item(last), ':') == Some((last.0, last.1.text())));
        assert(stat_of(stat_item(last)) == Some(last));
    }
}

/// What is written is read back: a frame whose payload holds writable
/// statistics, one item for each, decodes to the map that the statistics
/// stand for. Of two statistics with one key the later one counts.
pub proof fn lemma_stats_round_trip(frame: Seq<u8>, stats: Seq<(Seq<char>, NumberView)>)
    requires
        payload_text(frame) == Some(stats_payload(stats)),
        forall|i: int| 0 <= i < stats.len() ==> writable(#[trigger] stats[i]),
    ensures
        decoded_stats(frame) == Some(stats_map(stats)),
{
    let items = stats.map_values(|stat: (Seq<char>, NumberView)| stat_item(stat));
    lemma_items_hold(stats);
    if stats.len() == 0 {
        let nothing = Seq::<char>::empty();
        assert(stats_payload(stats) == nothing);
        lemma_first_index(nothing, ITEM_SEPARATOR, 0);
        assert(split(nothing, ITEM_SEPARATOR) =~= seq![nothing]);
        lemma_first_index(nothing, ':', 0);
        assert(stat_of(nothing) is None);
        let one = seq![nothing];
        assert(one.last() == nothing);
        assert(one.drop_last().len() == 0);
        assert(stats_of(one.drop_last()) == Map::<Seq<char>, NumberView>::empty());
        assert(stats_of(one) == Map::<Seq<char>, NumberView>::empty());
    } else {
        assert forall|i: int| 0 <= i < items.len() implies free_of(
            #[trigger] items[i],
            ITEM_SEPARATOR,
        ) by {
            assert(writable(stats[i]));
            lemma_number_text(stats[i].1);
            let item = items[i];
            assert forall|j: int| 0 <= j < item.len() implies item[j] != ITEM_SEPARATOR by {
                if j < stats[i].0.len() {
                    assert(item[j] == stats[i].0[j]);
                } else if j > stats[i].0.len() {
                    assert(item[j] == stats[i].1.text()[j - stats[i].0.len() - 1]);
                }
            }
        }
        lemma_split_joined(items, ITEM_SEPARATOR);
    }
}

} // verus!
