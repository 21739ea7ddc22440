//! The line-oriented text protocol of the TCP front end: a request is one
//! line of whitespace-separated words, answered by one line.
//!
//! Requests and answers:
//! - `SUBSCRIBE topic subscriber` → `OK`
//! - `PUBLISH topic word...` → `OK id` (the body is the words joined by one space)
//! - `DEQUEUE topic subscriber` → `MSG id body ` or `EMPTY`
//! - `ACK topic subscriber id` / `NACK topic subscriber id` → `OK` or `FAIL`
//! - fewer than three words → `ERR need more args`; anything else → `ERR unknown cmd`
use crate::broker::{Broker, BrokerView};
use vstd::prelude::*;

verus! {

/// The characters `char::is_whitespace` accepts: the Unicode White_Space
/// property.
pub open spec fn is_space(c: char) -> bool {
    let u = c as u32;
    ||| 0x09 <= u <= 0x0D
    ||| u == 0x20
    ||| u == 0x85
    ||| u == 0xA0
    ||| u == 0x1680
    ||| 0x2000 <= u <= 0x200A
    ||| u == 0x2028
    ||| u == 0x2029
    ||| u == 0x202F
    ||| u == 0x205F
    ||| u == 0x3000
}

/// Whether `c` is whitespace.
pub fn is_space_char(c: char) -> (r: bool)
    ensures
        r == is_space(c),
{
    let u = c as u32;
    (0x09 <= u && u <= 0x0D) || u == 0x20 || u == 0x85 || u == 0xA0 || u == 0x1680 || (0x2000 <= u
        && u <= 0x200A) || u == 0x2028 || u == 0x2029 || u == 0x202F || u == 0x205F || u == 0x3000
}

/// The words of `s`: its maximal runs of non-whitespace characters, in
/// order (what `str::split_whitespace` yields).
pub open spec fn words_of(s: Seq<char>) -> Seq<Seq<char>>
    decreases s.len(),
{
    if s.len() == 0 {
        Seq::empty()
    } else {
        let w = words_of(s.drop_last());
        let c = s.last();
        if is_space(c) {
            w
        } else if s.len() > 1 && !is_space(s[s.len() - 2]) {
            w.update(w.len() - 1, w.last().push(c))
        } else {
            w.push(seq![c])
        }
    }
}

/// `String::push`: appends `ch` to `s`, as std documents.
pub assume_specification[ String::push ](s: &mut String, ch: char)
    ensures
        final(s)@ == old(s)@.push(ch),
;

/// The view of a list of strings.
pub open spec fn strings_view(v: Seq<String>) -> Seq<Seq<char>> {
    v.map_values(|w: String| w@)
}

/// Splits `line` into its words.
pub fn split_words(line: &str) -> (words: Vec<String>)
    ensures
        strings_view(words@) == words_of(line@),
{
    let mut words: Vec<String> = Vec::new();
    let mut cur = String::new();
    let mut in_word = false;
    let ghost text = line@;
    let ghost mut seen: int = 0;
    for c in it: line.chars()
        invariant
            it.seq() == text,
            seen == it.index(),
            0 <= seen <= text.len(),
            in_word <==> (seen > 0 && !is_space(text[seen - 1])),
            in_word ==> strings_view(words@).push(cur@) == words_of(text.take(seen)),
            !in_word ==> strings_view(words@) == words_of(text.take(seen)),
    {
        let ghost pre = text.take(seen);
        let ghost next = text.take(seen + 1);
        proof {
            assert(next.drop_last() =~= pre);
            assert(next.last() == c);
        }
        if is_space_char(c) {
            if in_word {
                let ghost before = strings_view(words@);
                let mut done = String::new();
                std::mem::swap(&mut done, &mut cur);
                let ghost finished = done@;
                words.push(done);
                in_word = false;
                assert(strings_view(words@) =~= before.push(finished));
            }
            proof {
                assert(words_of(next) == words_of(pre));
            }
        } else {
            let ghost before = strings_view(words@);
            if in_word {
                let ghost old_cur = cur@;
                cur.push(c);
                proof {
                    assert(next.len() > 1 && !is_space(next[next.len() - 2]));
                    let w = words_of(pre);
                    assert(w == before.push(old_cur));
                    assert(words_of(next) == w.update(w.len() - 1, w.last().push(c)));
                    assert(before.push(cur@) =~= w.update(w.len() - 1, w.last().push(c)));
                }
            } else {
                cur = String::new();
                cur.push(c);
                in_word = true;
                proof {
                    assert(cur@ =~= seq![c]);
                    assert(words_of(next) == words_of(pre).push(seq![c]));
                }
            }
        }
        proof {
            seen = seen + 1;
        }
    }
    proof {
        assert(text.take(seen) =~= text);
    }
    if in_word {
        let ghost before = strings_view(words@);
        words.push(cur);
        assert(strings_view(words@) =~= before.push(words@.last()@));
    }
    words
}


/// A decimal digit character.
pub open spec fn is_digit(c: char) -> bool {
    48 <= (c as u32) <= 57
}

/// The value of a decimal digit character.
pub open spec fn digit_value(c: char) -> nat {
    ((c as u32) - 48) as nat
}

/// The character of a decimal digit.
pub open spec fn digit_char(d: nat) -> char {
    ((48 + d) as u8) as char
}

/// The value of a sequence of decimal digits, most significant first.
pub open spec fn digits_value(s: Seq<char>) -> nat
    decreases s.len(),
{
    if s.len() == 0 {
        0
    } else {
        digits_value(s.drop_last()) * 10 + digit_value(s.last())
    }
}

/// The decimal text of `n`, without leading zeros (what `u64`'s `Display`
/// writes).
pub open spec fn decimal(n: nat) -> Seq<char>
    decreases n,
{
    if n < 10 {
        seq![digit_char(n)]
    } else {
        decimal(n / 10).push(digit_char(n % 10))
    }
}

/// The digits of a number text: without a single leading `+`.
pub open spec fn unsigned_digits(s: Seq<char>) -> Seq<char> {
    if s.len() > 0 && s[0] == '+' {
        s.drop_first()
    } else {
        s
    }
}

/// What `s.parse::<u64>()` gives: the value of the digits after an optional
/// `+`, when there is at least one digit, nothing else, and the value fits.
pub open spec fn parsed_u64(s: Seq<char>) -> Option<u64> {
    let d = unsigned_digits(s);
    if d.len() > 0 && (forall|i: int| 0 <= i < d.len() ==> is_digit(#[trigger] d[i])) && digits_value(d)
        <= u64::MAX {
        Some(digits_value(d) as u64)
    } else {
        None
    }
}

/// The decimal text of `n`.
pub fn decimal_text(n: u64) -> (s: String)
    ensures
        s@ == decimal(n as nat),
    decreases n,
{
    if n < 10 {
        let mut s = String::new();
        s.push((48u8 + n as u8) as char);
        assert(s@ =~= seq![digit_char(n as nat)]);
        s
    } else {
        let mut s = decimal_text(n / 10);
        s.push((48u8 + (n % 10) as u8) as char);
        s
    }
}

/// Parses `s` as a `u64` the way `str::parse::<u64>` does.
pub fn parse_u64(s: &str) -> (r: Option<u64>)
    ensures
        r == parsed_u64(s@),
{
    let ghost text = s@;
    let ghost start: int = if text.len() > 0 && text[0] == '+' { 1 } else { 0 };
    let mut value: u64 = 0;
    let mut ok = true;
    let mut any_digit = false;
    let mut first = true;
    let ghost mut seen: int = 0;
    for c in it: s.chars()
        invariant
            it.seq() == text,
            seen == it.index(),
            0 <= seen <= text.len(),
            first <==> seen == 0,
            start == if text.len() > 0 && text[0] == '+' { 1int } else { 0int },
            seen >= start || (seen == 0 && start == 1),
            any_digit <==> seen > start,
            ok <==> ((forall|i: int| start <= i < seen ==> is_digit(#[trigger] text[i])) && digits_value(
                text.subrange(start, if seen >= start { seen } else { start }),
            ) <= u64::MAX),
            ok ==> value == digits_value(text.subrange(start, if seen >= start { seen } else { start })),
    {
        if first && c == '+' {
            first = false;
            proof {
                assert(text.subrange(start, 1) =~= Seq::<char>::empty());
                seen = seen + 1;
            }
        } else {
            first = false;
            let ghost before = text.subrange(start, seen);
            let ghost after = text.subrange(start, seen + 1);
            proof {
                assert(seen >= start);
                assert(after.drop_last() =~= before);
                assert(after.last() == c);
            }
            if ok {
                if 48 <= (c as u32) && (c as u32) <= 57 {
                    let d = (c as u32 - 48) as u64;
                    match value.checked_mul(10) {
                        Some(v10) => match v10.checked_add(d) {
                            Some(v) => {
                                value = v;
                            },
                            None => {
                                ok = false;
                            },
                        },
                        None => {
                            ok = false;
                        },
                    }
                } else {
                    ok = false;
                }
            } else {
                proof {
                    if (forall|i: int| start <= i < seen + 1 ==> is_digit(#[trigger] text[i])) {
                        assert(forall|i: int| start <= i < seen ==> is_digit(#[trigger] text[i]));
                        assert(digits_value(after) >= digits_value(before));
                    }
                }
            }
            any_digit = true;
            proof {
                seen = seen + 1;
            }
        }
    }
    proof {
        assert(seen == text.len());
        if seen >= start {
            let d = unsigned_digits(text);
            assert(text.subrange(start, seen) =~= d);
            assert((forall|i: int| 0 <= i < d.len() ==> is_digit(#[trigger] d[i])) <==> (forall|i: int|
                start <= i < seen ==> is_digit(#[trigger] text[i]))) by {
                if forall|i: int| 0 <= i < d.len() ==> is_digit(#[trigger] d[i]) {
                    assert forall|i: int| start <= i < seen implies is_digit(#[trigger] text[i]) by {
                        assert(d[i - start] == text[i]);
                    }
                }
                if forall|i: int| start <= i < seen ==> is_digit(#[trigger] text[i]) {
                    assert forall|i: int| 0 <= i < d.len() implies is_digit(#[trigger] d[i]) by {
                        assert(d[i] == text[i + start]);
                    }
                }
            }
        } else {
            assert(unsigned_digits(text) =~= Seq::<char>::empty());
        }
    }
    if ok && any_digit {
        Some(value)
    } else {
        None
    }
}


/// Words joined with one space between each two.
pub open spec fn join_words(ws: Seq<Seq<char>>) -> Seq<char>
    decreases ws.len(),
{
    if ws.len() == 0 {
        Seq::empty()
    } else if ws.len() == 1 {
        ws[0]
    } else {
        join_words(ws.drop_last()) + seq![' '] + ws.last()
    }
}

/// The words from place `from` on, joined with one space.
pub fn join_from(words: &Vec<String>, from: usize) -> (s: String)
    requires
        from <= words@.len(),
    ensures
        s@ == join_words(strings_view(words@).skip(from as int)),
{
    let mut out = String::new();
    let n = words.len();
    let ghost ws = strings_view(words@);
    let mut k = from;
    proof {
        assert(ws.subrange(from as int, from as int) =~= Seq::<Seq<char>>::empty());
    }
    while k < n
        invariant
            from <= k <= n,
            n == words@.len(),
            ws == strings_view(words@),
            out@ == join_words(ws.subrange(from as int, k as int)),
        decreases n - k,
    {
        let ghost prefix = ws.subrange(from as int, k as int);
        let ghost next = ws.subrange(from as int, k + 1);
        proof {
            assert(next.drop_last() =~= prefix);
            assert(next.last() == words@[k as int]@);
        }
        if k > from {
            out.append(" ");
            proof {
                reveal_strlit(" ");
            }
        } else {
            proof {
                assert(prefix.len() == 0);
            }
        }
        out.append(words[k].as_str());
        proof {
            if k > from {
                assert(out@ =~= join_words(prefix) + seq![' '] + words@[k as int]@);
            } else {
                assert(out@ =~= words@[k as int]@);
            }
        }
        k = k + 1;
    }
    proof {
        assert(ws.subrange(from as int, n as int) =~= ws.skip(from as int));
    }
    out
}

/// The identifier argument of a settle request: its number, or 0 when it
/// does not parse.
pub open spec fn id_argument(s: Seq<char>) -> u64 {
    match parsed_u64(s) {
        Some(v) => v,
        None => 0,
    }
}

/// Whether a request line can be served: an `ACK` or `NACK` request names
/// the message (four words at least), and a `PUBLISH` request finds an
/// identifier left to issue.
pub open spec fn servable(m: BrokerView, line: Seq<char>) -> bool {
    let w = words_of(line);
    w.len() >= 3 ==> {
        &&& (w[0] == "ACK"@ || w[0] == "NACK"@) ==> w.len() >= 4
        &&& w[0] == "PUBLISH"@ ==> m.next_id < u64::MAX
    }
}

/// The broker after a request line served at `now`, and the answer line.
pub open spec fn reply(m: BrokerView, line: Seq<char>, now: u128) -> (BrokerView, Seq<char>) {
    let w = words_of(line);
    if w.len() < 3 {
        (m, "ERR need more args\n"@)
    } else if w[0] == "SUBSCRIBE"@ {
        (m.subscribed(w[1], w[2]), "OK\n"@)
    } else if w[0] == "PUBLISH"@ {
        let (m2, id) = m.published(w[1], join_words(w.skip(2)));
        (m2, "OK "@ + decimal(id as nat) + "\n"@)
    } else if w[0] == "DEQUEUE"@ {
        let (m2, r) = m.dequeued(w[1], w[2], now);
        (
            m2,
            match r {
                Some(msg) => "MSG "@ + decimal(msg.0 as nat) + " "@ + msg.1 + " \n"@,
                None => "EMPTY\n"@,
            },
        )
    } else if w[0] == "ACK"@ {
        let (m2, ok) = m.acked(w[1], w[2], id_argument(w[3]));
        (m2, if ok { "OK\n"@ } else { "FAIL\n"@ })
    } else if w[0] == "NACK"@ {
        let (m2, ok) = m.nacked(w[1], w[2], id_argument(w[3]));
        (m2, if ok { "OK\n"@ } else { "FAIL\n"@ })
    } else {
        (m, "ERR unknown cmd\n"@)
    }
}

/// Whether `line` can be served by `broker` (see `servable`).
pub fn can_serve(broker: &Broker, line: &str) -> (r: bool)
    ensures
        r == servable(broker@, line@),
{
    let words = split_words(line);
    if words.len() < 3 {
        return true;
    }
    let ack = "ACK".to_owned();
    let nack = "NACK".to_owned();
    let publish = "PUBLISH".to_owned();
    if (words[0] == ack || words[0] == nack) && words.len() < 4 {
        return false;
    }
    if words[0] == publish && broker.next_id == u64::MAX {
        return false;
    }
    true
}

/// Serves one request line at `now` (nanoseconds on the broker's clock)
/// and returns the answer line.
pub fn handle_line_at(broker: &mut Broker, line: &str, now: u128) -> (answer: String)
    requires
        old(broker).wf(),
        servable(old(broker)@, line@),
    ensures
        final(broker).wf(),
        (final(broker)@, answer@) == reply(old(broker)@, line@, now),
{
    let words = split_words(line);
    let ghost w = strings_view(words@);
    if words.len() < 3 {
        return "ERR need more args\n".to_owned();
    }
    proof {
        assert(w[0] == words@[0]@ && w[1] == words@[1]@ && w[2] == words@[2]@);
    }
    let cmd = &words[0];
    if *cmd == "SUBSCRIBE".to_owned() {
        broker.subscribe(words[1].as_str(), words[2].as_str());
        "OK\n".to_owned()
    } else if *cmd == "PUBLISH".to_owned() {
        let body = join_from(&words, 2);
        let id = broker.publish(words[1].as_str(), body);
        let mut out = "OK ".to_owned();
        out.append(decimal_text(id).as_str());
        out.append("\n");
        out
    } else if *cmd == "DEQUEUE".to_owned() {
        match broker.dequeue_at(words[1].as_str(), words[2].as_str(), now) {
            Some(msg) => {
                let mut out = "MSG ".to_owned();
                out.append(decimal_text(msg.id).as_str());
                out.append(" ");
                out.append(msg.body.as_str());
                out.append(" \n");
                out
            },
            None => "EMPTY\n".to_owned(),
        }
    } else if *cmd == "ACK".to_owned() || *cmd == "NACK".to_owned() {
        proof {
            assert(w[3] == words@[3]@);
        }
        let id = match parse_u64(words[3].as_str()) {
            Some(v) => v,
            None => 0,
        };
        let ok = if *cmd == "ACK".to_owned() {
            broker.ack(words[1].as_str(), words[2].as_str(), id)
        } else {
            broker.nack(words[1].as_str(), words[2].as_str(), id)
        };
        if ok {
            "OK\n".to_owned()
        } else {
            "FAIL\n".to_owned()
        }
    } else {
        "ERR unknown cmd\n".to_owned()
    }
}

/// Serves one request line, timing a hand-out by the broker's clock now
/// (no earlier than any hand-out before), and returns the answer line.
pub fn handle_line(broker: &mut Broker, line: &str) -> (answer: String)
    requires
        old(broker).wf(),
        servable(old(broker)@, line@),
    ensures
        final(broker).wf(),
        exists|now: u128|
            now >= old(broker).latest_handout && (final(broker)@, answer@) == #[trigger] reply(
                old(broker)@,
                line@,
                now,
            ),
{
    let now = broker.clock_now();
    handle_line_at(broker, line, now)
}
} // verus!
