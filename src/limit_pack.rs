//! Bounded text forms of values: long strings and long lists are cut in the
//! middle, and nested brackets carry sequence numbers that pair them up.
use vstd::prelude::*;
use vstd::utf8::encode_utf8;

use crate::text::{chars_of, copy_letters, decimal, decimal_text, push_char};

verus! {

/// The limits and the bracket numbering state of one conversion.
pub struct Limit {
    array_limit: usize,
    dict_limit: usize,
    str_limit: usize,
    pair_seq: u32,
    pair_stack: Vec<u32>,
}

/// What a `Limit` holds.
pub struct LimitView {
    pub array_limit: nat,
    pub dict_limit: nat,
    pub str_limit: nat,
    pub pair_seq: nat,
    pub pair_stack: Seq<u32>,
}

impl View for Limit {
    type V = LimitView;

    closed spec fn view(&self) -> LimitView {
        LimitView {
            array_limit: self.array_limit as nat,
            dict_limit: self.dict_limit as nat,
            str_limit: self.str_limit as nat,
            pair_seq: self.pair_seq as nat,
            pair_stack: self.pair_stack@,
        }
    }
}

/// The number of bytes of the text in UTF-8, as `str::len` reports it.
pub open spec fn byte_len(text: Seq<char>) -> nat {
    encode_utf8(text).len() as usize as nat
}

/// A string within `str_limit` bytes (or with a limit of 10 or less) is kept; a
/// longer one keeps `str_limit / 2` characters at each end, with the number of
/// bytes over the limit between them as `...n...`.
pub open spec fn shortened(str_limit: nat, text: Seq<char>) -> Seq<char> {
    let bytes = byte_len(text);
    if str_limit <= 10 || bytes <= str_limit {
        text
    } else {
        let half = str_limit / 2;
        let k = if half < text.len() { half } else { text.len() };
        text.take(k as int) + "..."@ + decimal((bytes - str_limit) as nat) + "..."@
            + text.subrange(text.len() - k, text.len() as int)
    }
}

/// The bracket number after `n`; numbers wrap around after `u32::MAX`.
pub open spec fn next_seq(n: nat) -> nat {
    (n + 1) % 0x1_0000_0000
}

/// The items joined by commas.
pub open spec fn joined(items: Seq<Seq<char>>) -> Seq<char>
    decreases items.len(),
{
    if items.len() == 0 {
        seq![]
    } else if items.len() == 1 {
        items[0]
    } else {
        joined(items.drop_last()) + ","@ + items.last()
    }
}

/// A bracketed group: the opening bracket with its number, the body, and the
/// number with the closing bracket; a space separates a non-empty body.
pub open spec fn bracketed(open: char, close: char, seq_no: nat, body: Seq<char>, empty: bool) -> Seq<char> {
    seq![open] + decimal(seq_no) + " "@ + body + (if empty { seq![] } else { " "@ }) + decimal(seq_no)
        + seq![close]
}

/// The body of a cut list: the first `half` item texts, each followed by a comma;
/// `...skip...` when items were left out; then the rest joined by commas.
pub open spec fn cut_body(texts: Seq<Seq<char>>, half: nat, skip: nat) -> Seq<char> {
    if skip == 0 {
        joined(texts)
    } else {
        let first = texts.take(half as int);
        let rest = texts.subrange(half as int, texts.len() as int);
        (if first.len() > 0 { joined(first) + ","@ } else { seq![] }) + "..."@ + decimal(skip) + "..."@
            + joined(rest)
    }
}

/// How many items of `len` a limit leaves out: none within the limit, else all but
/// `limit / 2` at each end.
pub open spec fn skipped(len: nat, limit: nat) -> nat {
    if len <= limit {
        0
    } else {
        (len - limit / 2 * 2) as nat
    }
}

/// Values with a bounded text form.
pub trait LimitPackAble {
    /// The text form of the value under the limits; nested groups take bracket numbers.
    fn to_limit_str(&self, limit: &mut Limit) -> String;

    /// The text form under fresh limits for lists, maps and strings.
    fn to_limit_str3(&self, array_limit: usize, dict_limit: usize, str_limit: usize) -> String {
        let mut limit = Limit::new(array_limit, dict_limit, str_limit);
        self.to_limit_str(&mut limit)
    }
}

/// A named field of a structure.
pub struct ForStruct<T> {
    pub k: String,
    pub v: T,
}

/// Lays out a group: the opening bracket and its number, the cut body, and the
/// number with the closing bracket.
pub fn pack_group(open: char, close: char, seq_no: u32, texts: &Vec<String>, half: usize, skip: usize, empty: bool) -> (r: String)
    requires
        skip > 0 ==> half <= texts@.len(),
    ensures
        r@ == bracketed(open, close, seq_no as nat, cut_body(texts@.map_values(|s: String| s@), half as nat, skip as nat), empty),
{
    let ghost items = texts@.map_values(|s: String| s@);
    let number = decimal_text(seq_no as usize);
    let mut text = String::new();
    push_char(&mut text, open);
    text.append(number.as_str());
    text.append(" ");
    let ghost head = text@;
    let mut body = String::new();
    if skip == 0 {
        append_joined(&mut body, texts, 0, texts.len());
    } else {
        if half > 0 {
            append_joined(&mut body, texts, 0, half);
            body.append(",");
        }
        body.append("...");
        let count = decimal_text(skip);
        body.append(count.as_str());
        body.append("...");
        append_joined(&mut body, texts, half, texts.len());
        proof {
            reveal_strlit(",");
            reveal_strlit("...");
            assert(items.subrange(0, half as int) =~= items.take(half as int));
        }
    }
    proof {
        assert(items.subrange(0, texts@.len() as int) =~= items);
    }
    text.append(body.as_str());
    if !empty {
        text.append(" ");
    }
    text.append(number.as_str());
    push_char(&mut text, close);
    proof {
        reveal_strlit(" ");
        assert(text@ =~= bracketed(open, close, seq_no as nat, cut_body(items, half as nat, skip as nat), empty));
    }
    text
}

/// Appends `texts[from..to]` joined by commas.
fn append_joined(out: &mut String, texts: &Vec<String>, from: usize, to: usize)
    requires
        from <= to <= texts@.len(),
    ensures
        final(out)@ == old(out)@ + joined(texts@.map_values(|s: String| s@).subrange(from as int, to as int)),
{
    let ghost items = texts@.map_values(|s: String| s@);
    let mut i: usize = from;
    while i < to
        invariant
            from <= i <= to <= texts@.len(),
            items == texts@.map_values(|s: String| s@),
            out@ == old(out)@ + joined(items.subrange(from as int, i as int)),
        decreases to - i,
    {
        if i > from {
            out.append(",");
        }
        out.append(texts[i].as_str());
        proof {
            reveal_strlit(",");
            let t = items.subrange(from as int, i + 1);
            assert(t.drop_last() =~= items.subrange(from as int, i as int));
            if i == from {
                assert(items.subrange(from as int, i as int) =~= seq![]);
            }
        }
        i += 1;
    }
}

impl Limit {
    /// A copy of the limits with another string limit and an empty stack.
    pub fn clone(&self, str_limit: usize) -> (r: Self)
        ensures
            r@ == (LimitView { str_limit: str_limit as nat, pair_stack: seq![], ..self@ }),
    {
        Limit {
            array_limit: self.array_limit,
            dict_limit: self.dict_limit,
            str_limit,
            pair_seq: self.pair_seq,
            pair_stack: Vec::new(),
        }
    }

    /// Limits for lists, maps and strings; numbering starts at 0.
    pub fn new(array_limit: usize, dict_limit: usize, str_limit: usize) -> (r: Self)
        ensures
            r@ == (LimitView {
                array_limit: array_limit as nat,
                dict_limit: dict_limit as nat,
                str_limit: str_limit as nat,
                pair_seq: 0,
                pair_stack: seq![],
            }),
    {
        Limit { array_limit, dict_limit, str_limit, pair_seq: 0, pair_stack: Vec::new() }
    }

    /// The next bracket number.
    pub fn pair_seq(&self) -> (r: u32)
        ensures
            r as nat == self@.pair_seq,
    {
        self.pair_seq
    }

    /// The string, shortened to the string limit.
    pub fn new_string(&self, text: String) -> (r: String)
        ensures
            r@ == shortened(self@.str_limit, text@),
    {
        let len = text.as_str().len();
        assert(len as nat == byte_len(text@));
        if self.str_limit <= 10 || len <= self.str_limit {
            return text;
        }
        let full = chars_of(text.as_str());
        let half = self.str_limit / 2;
        let k = if half < full.len() { half } else { full.len() };
        let mut out = String::new();
        copy_letters(&mut out, &full, 0, k);
        out.append("...");
        let skipped = decimal_text(len - self.str_limit);
        out.append(skipped.as_str());
        out.append("...");
        copy_letters(&mut out, &full, full.len() - k, full.len());
        proof {
            reveal_strlit("...");
            assert(full@.subrange(0, k as int) =~= text@.take(k as int));
        }
        out
    }

    /// A tuple of already converted items: `(n a,b n)`, where `n` is the next
    /// bracket number, which is then used up.
    pub fn new_tuple(&mut self, data: &Vec<String>) -> (r: String)
        ensures
            r@ == bracketed('(', ')', old(self)@.pair_seq, joined(data@.map_values(|s: String| s@)), data@.len() == 0),
            final(self)@ == (LimitView { pair_seq: next_seq(old(self)@.pair_seq), ..old(self)@ }),
    {
        let pair_seq = self.pair_seq;
        let number = decimal_text(pair_seq as usize);
        let mut text = String::from_str("(");
        text.append(number.as_str());
        text.append(" ");
        self.pair_seq = self.pair_seq.wrapping_add(1);
        let ghost items = data@.map_values(|s: String| s@);
        let ghost head = text@;
        let mut i: usize = 0;
        while i < data.len()
            invariant
                i <= data@.len(),
                items == data@.map_values(|s: String| s@),
                text@ == head + joined(items.take(i as int)),
            decreases data@.len() - i,
        {
            if i > 0 {
                text.append(",");
            }
            text.append(data[i].as_str());
            proof {
                reveal_strlit(",");
                let t = items.take(i + 1);
                assert(t.drop_last() =~= items.take(i as int));
                if i == 0 {
                    assert(items.take(0) =~= seq![]);
                }
            }
            i += 1;
        }
        if data.len() > 0 {
            text.append(" ");
        }
        text.append(number.as_str());
        text.append(")");
        proof {
            reveal_strlit("(");
            reveal_strlit(")");
            reveal_strlit(" ");
            assert(items.take(i as int) =~= items);
            assert(text@ =~= bracketed('(', ')', pair_seq as nat, joined(items), data@.len() == 0));
        }
        text
    }

    /// A list: `[n a,b n]`, cut in the middle beyond the list limit; `n` is the
    /// next bracket number. The item texts come from the items themselves.
    pub fn new_list<T: LimitPackAble>(&mut self, data: &Vec<T>) -> (r: String)
        ensures
            exists|texts: Seq<Seq<char>>|
                #![trigger cut_body(texts, old(self)@.array_limit / 2, skipped(data@.len(), old(self)@.array_limit))]
                texts.len() == data@.len() - skipped(data@.len(), old(self)@.array_limit) && r@ == bracketed(
                    '[', ']',
                    old(self)@.pair_seq,
                    cut_body(texts, old(self)@.array_limit / 2, skipped(data@.len(), old(self)@.array_limit)),
                    data@.len() == 0,
                ),
    {
        let pair_seq = self.pair_seq;
        self.pair_seq = self.pair_seq.wrapping_add(1);
        let limit = self.array_limit;
        let half = limit / 2;
        let skip = if data.len() <= limit { 0 } else { data.len() - half * 2 };
        let mut texts: Vec<String> = Vec::new();
        let mut i: usize = 0;
        while i < data.len()
            invariant
                i <= data@.len(),
                skip > 0 ==> texts@.len() == if i < half { i as nat } else { half as nat + if i >= half + skip { (i - half - skip) as nat } else { 0 } },
                skip > 0 ==> half * 2 < data@.len(),
                skip == 0 ==> texts@.len() == i,
                skip == (if data@.len() <= limit { 0 } else { data@.len() - half * 2 }),
                half == limit / 2,
            decreases data@.len() - i,
        {
            if skip == 0 || i < half || i - half >= skip {
                texts.push(data[i].to_limit_str(self));
            }
            i += 1;
        }
        let r = pack_group('[', ']', pair_seq, &texts, half, skip, data.len() == 0);
        proof {
            let ts = texts@.map_values(|s: String| s@);
            assert(ts.len() == data@.len() - skip);
            assert(limit == old(self)@.array_limit && pair_seq == old(self)@.pair_seq);
            assert(skip == skipped(data@.len(), old(self)@.array_limit));
            assert(r@ == bracketed('[', ']', old(self)@.pair_seq, cut_body(ts, old(self)@.array_limit / 2, skipped(data@.len(), old(self)@.array_limit)), data@.len() == 0));
        }
        r
    }

    /// A map: `{n k:v,k:v n}`, cut in the middle beyond the map limit; `n` is the
    /// next bracket number. The key and value texts come from the pairs themselves.
    pub fn new_dict<T1: LimitPackAble, T2: LimitPackAble>(&mut self, data: &Vec<(T1, T2)>) -> (r: String)
        ensures
            exists|texts: Seq<Seq<char>>|
                #![trigger cut_body(texts, old(self)@.dict_limit / 2, skipped(data@.len(), old(self)@.dict_limit))]
                texts.len() == data@.len() - skipped(data@.len(), old(self)@.dict_limit) && r@ == bracketed(
                    '{', '}',
                    old(self)@.pair_seq,
                    cut_body(texts, old(self)@.dict_limit / 2, skipped(data@.len(), old(self)@.dict_limit)),
                    data@.len() == 0,
                ),
    {
        let pair_seq = self.pair_seq;
        self.pair_seq = self.pair_seq.wrapping_add(1);
        let limit = self.dict_limit;
        let half = limit / 2;
        let skip = if data.len() <= limit { 0 } else { data.len() - half * 2 };
        let mut texts: Vec<String> = Vec::new();
        let mut i: usize = 0;
        while i < data.len()
            invariant
                i <= data@.len(),
                skip > 0 ==> texts@.len() == if i < half { i as nat } else { half as nat + if i >= half + skip { (i - half - skip) as nat } else { 0 } },
                skip > 0 ==> half * 2 < data@.len(),
                skip == 0 ==> texts@.len() == i,
                skip == (if data@.len() <= limit { 0 } else { data@.len() - half * 2 }),
                half == limit / 2,
            decreases data@.len() - i,
        {
            if skip == 0 || i < half || i - half >= skip {
                let k_text = data[i].0.to_limit_str(self);
                let v_text = data[i].1.to_limit_str(self);
                let entry = k_text.concat(":").concat(v_text.as_str());
                texts.push(entry);
            }
            i += 1;
        }
        let r = pack_group('{', '}', pair_seq, &texts, half, skip, data.len() == 0);
        proof {
            let ts = texts@.map_values(|s: String| s@);
            assert(ts.len() == data@.len() - skip);
            assert(limit == old(self)@.dict_limit && pair_seq == old(self)@.pair_seq);
            assert(skip == skipped(data@.len(), old(self)@.dict_limit));
            assert(r@ == bracketed('{', '}', old(self)@.pair_seq, cut_body(ts, old(self)@.dict_limit / 2, skipped(data@.len(), old(self)@.dict_limit)), data@.len() == 0));
        }
        r
    }

    /// Restores the bracket number saved by `pop_start`.
    pub fn pop_end(&mut self, pair_seq: u32)
        ensures
            final(self)@ == (LimitView { pair_seq: pair_seq as nat, ..old(self)@ }),
    {
        self.pair_seq = pair_seq;
    }

    /// Restores the bracket number saved by `push_and_inc` (0 when none is saved)
    /// and returns the current one, for `pop_end`.
    pub fn pop_start(&mut self) -> (r: u32)
        ensures
            r as nat == old(self)@.pair_seq,
            final(self)@ == (if old(self)@.pair_stack.len() > 0 {
                LimitView {
                    pair_seq: old(self)@.pair_stack.last() as nat,
                    pair_stack: old(self)@.pair_stack.drop_last(),
                    ..old(self)@
                }
            } else {
                LimitView { pair_seq: 0, ..old(self)@ }
            }),
    {
        let pair_seq = self.pair_seq;
        self.pair_seq = match self.pair_stack.pop() {
            Some(saved) => saved,
            None => 0,
        };
        pair_seq
    }

    /// Saves the current bracket number and moves past it, for an enclosing group.
    pub fn push_and_inc(&mut self)
        ensures
            final(self)@ == (LimitView {
                pair_seq: next_seq(old(self)@.pair_seq),
                pair_stack: old(self)@.pair_stack.push(old(self)@.pair_seq as u32),
                ..old(self)@
            }),
    {
        self.pair_stack.push(self.pair_seq);
        self.pair_seq = self.pair_seq.wrapping_add(1);
    }
}

impl LimitPackAble for String {
    fn to_limit_str(&self, limit: &mut Limit) -> String {
        limit.new_string(self.clone())
    }
}

impl LimitPackAble for usize {
    fn to_limit_str(&self, limit: &mut Limit) -> String {
        decimal_text(*self)
    }
}

impl LimitPackAble for u32 {
    fn to_limit_str(&self, limit: &mut Limit) -> String {
        decimal_text(*self as usize)
    }
}

impl LimitPackAble for bool {
    fn to_limit_str(&self, limit: &mut Limit) -> String {
        if *self {
            String::from_str("true")
        } else {
            String::from_str("false")
        }
    }
}

impl<T: LimitPackAble> LimitPackAble for Option<T> {
    fn to_limit_str(&self, limit: &mut Limit) -> String {
        match self {
            Some(obj) => obj.to_limit_str(limit),
            None => String::from_str("None"),
        }
    }
}

impl<T: LimitPackAble> LimitPackAble for Vec<T> {
    fn to_limit_str(&self, limit: &mut Limit) -> String {
        limit.new_list(self)
    }
}

impl<A: LimitPackAble, B: LimitPackAble> LimitPackAble for (A, B) {
    fn to_limit_str(&self, limit: &mut Limit) -> String {
        limit.push_and_inc();
        let mut v: Vec<String> = Vec::new();
        v.push(self.0.to_limit_str(limit));
        v.push(self.1.to_limit_str(limit));
        let pair_seq = limit.pop_start();
        let text = limit.new_tuple(&v);
        limit.pop_end(pair_seq);
        text
    }
}

impl<T: LimitPackAble> LimitPackAble for ForStruct<T> {
    fn to_limit_str(&self, limit: &mut Limit) -> String {
        let v_text = self.v.to_limit_str(limit);
        self.k.clone().concat(":").concat(v_text.as_str())
    }
}

} // verus!
