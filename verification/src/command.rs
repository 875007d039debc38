//! The chat commands: `!join`, `!start`, `!bet <amount>`, `!call`,
//! `!check`, `!fold` and `!next`.

use vstd::prelude::*;
use vstd::string::*;
use crate::cards::{Card, standard_deck};
use crate::text::{decimal, digit_char};
use crate::game::{
    BetAction, GameView, PokerGame, advance_allowed, advance_result, bet_allowed, bet_result,
    join_result, start_allowed, start_result,
};

verus! {

// ─── Words ───────────────────────────────────────────────────────────────

/// The characters with the Unicode `White_Space` property.
pub open spec fn is_space(c: char) -> bool {
    ||| '\u{9}' <= c <= '\u{d}'
    ||| c == ' '
    ||| c == '\u{85}'
    ||| c == '\u{a0}'
    ||| c == '\u{1680}'
    ||| '\u{2000}' <= c <= '\u{200a}'
    ||| c == '\u{2028}'
    ||| c == '\u{2029}'
    ||| c == '\u{202f}'
    ||| c == '\u{205f}'
    ||| c == '\u{3000}'
}

/// Whether `c` is white space in the sense of Unicode.
pub fn is_space_char(c: char) -> (res: bool)
    ensures
        res == is_space(c),
{
    ('\u{9}' <= c && c <= '\u{d}') || c == ' ' || c == '\u{85}' || c == '\u{a0}' || c
        == '\u{1680}' || ('\u{2000}' <= c && c <= '\u{200a}') || c == '\u{2028}' || c
        == '\u{2029}' || c == '\u{202f}' || c == '\u{205f}' || c == '\u{3000}'
}

/// The first position from `i` on that is not white space (the length
/// where there is none).
pub open spec fn skip_space(s: Seq<char>, i: int) -> int
    decreases s.len() - i,
{
    if i >= s.len() || i < 0 {
        s.len() as int
    } else if is_space(s[i]) {
        skip_space(s, i + 1)
    } else {
        i
    }
}

/// The first position from `i` on that is white space (the length where
/// there is none).
pub open spec fn word_end(s: Seq<char>, i: int) -> int
    decreases s.len() - i,
{
    if i >= s.len() || i < 0 {
        s.len() as int
    } else if !is_space(s[i]) {
        word_end(s, i + 1)
    } else {
        i
    }
}

/// The word that starts at the first non-space position from `i` on.
pub open spec fn word_from(s: Seq<char>, i: int) -> Option<Seq<char>> {
    let a = skip_space(s, i);
    if a >= s.len() {
        None
    } else {
        Some(s.subrange(a, word_end(s, a)))
    }
}

/// The first word of a message.
pub open spec fn first_word(s: Seq<char>) -> Option<Seq<char>> {
    word_from(s, 0)
}

/// The second word of a message.
pub open spec fn second_word(s: Seq<char>) -> Option<Seq<char>> {
    word_from(s, word_end(s, skip_space(s, 0)))
}

/// The first position from `i` on of `text` that is not white space.
fn skip_space_at(text: &str, n: usize, i: usize) -> (res: usize)
    requires
        n == text@.len(),
        i <= n,
    ensures
        res == skip_space(text@, i as int),
        i <= res <= n,
{
    let mut k = i;
    while k < n && is_space_char(text.get_char(k))
        invariant
            n == text@.len(),
            i <= k <= n,
            skip_space(text@, i as int) == skip_space(text@, k as int),
        decreases n - k,
    {
        k = k + 1;
    }
    k
}

/// The first position from `i` on of `text` that is white space.
fn word_end_at(text: &str, n: usize, i: usize) -> (res: usize)
    requires
        n == text@.len(),
        i <= n,
    ensures
        res == word_end(text@, i as int),
        i <= res <= n,
{
    let mut k = i;
    while k < n && !is_space_char(text.get_char(k))
        invariant
            n == text@.len(),
            i <= k <= n,
            word_end(text@, i as int) == word_end(text@, k as int),
        decreases n - k,
    {
        k = k + 1;
    }
    k
}

/// Whether the characters of `text` from `a` to `b` spell `word`.
fn spells(text: &str, a: usize, b: usize, word: &str) -> (res: bool)
    requires
        a <= b <= text@.len(),
    ensures
        res == (text@.subrange(a as int, b as int) == word@),
{
    let m = word.unicode_len();
    if b - a != m {
        return false;
    }
    let mut i: usize = 0;
    while i < m
        invariant
            m == word@.len(),
            b - a == m,
            a <= b <= text@.len(),
            i <= m,
            forall|j: int| 0 <= j < i ==> text@[a + j] == word@[j],
        decreases m - i,
    {
        if text.get_char(a + i) != word.get_char(i) {
            assert(text@.subrange(a as int, b as int)[i as int] != word@[i as int]);
            return false;
        }
        i = i + 1;
    }
    assert(text@.subrange(a as int, b as int) =~= word@);
    true
}

// ─── Numbers ─────────────────────────────────────────────────────────────

/// The value of a decimal digit character.
pub open spec fn digit_value(c: char) -> int {
    c as int - '0' as int
}

/// The characters are all ASCII decimal digits.
pub open spec fn all_digits(s: Seq<char>) -> bool {
    forall|i: int| 0 <= i < s.len() ==> '0' <= #[trigger] s[i] <= '9'
}

/// The number that a string of decimal digits stands for.
pub open spec fn digits_value(s: Seq<char>) -> int
    decreases s.len(),
{
    if s.len() == 0 {
        0
    } else {
        digits_value(s.drop_last()) * 10 + digit_value(s.last())
    }
}

/// The reading of a word as an unsigned 32-bit number: an optional `+`,
/// then at least one decimal digit, and a value that fits.
pub open spec fn parse_u32(w: Seq<char>) -> Option<u32> {
    let digits = if w.len() > 0 && w[0] == '+' {
        w.drop_first()
    } else {
        w
    };
    if digits.len() == 0 || !all_digits(digits) || digits_value(digits) > u32::MAX {
        None
    } else {
        Some(digits_value(digits) as u32)
    }
}

/// A bet word reads as a number only where, after an optional leading
/// `+`, it is made of decimal digits alone, at least one; the number is
/// then their decimal value. Every such word whose value fits in 32 bits
/// reads as that value, and any other word is refused.
pub proof fn lemma_parse_reads_whole_word(w: Seq<char>)
    ensures
        parse_u32(w) is Some ==> {
            &&& forall|i: int|
                0 <= i < w.len() ==> ('0' <= #[trigger] w[i] <= '9' || (i == 0 && w[i] == '+'))
            &&& exists|i: int| 0 <= i < w.len() && '0' <= #[trigger] w[i] <= '9'
            &&& parse_u32(w)->Some_0 == digits_value(
                if w[0] == '+' {
                    w.drop_first()
                } else {
                    w
                },
            )
        },
        (exists|i: int| 0 <= i < w.len() && !('0' <= #[trigger] w[i] <= '9') && !(i == 0 && w[i] == '+'))
            ==> parse_u32(w) is None,
        (w.len() > 0 && all_digits(w) && digits_value(w) <= u32::MAX) ==> parse_u32(w) == Some(
            digits_value(w) as u32,
        ),
{
    let digits = if w.len() > 0 && w[0] == '+' {
        w.drop_first()
    } else {
        w
    };
    if parse_u32(w) is Some {
        assert forall|i: int| 0 <= i < w.len() implies ('0' <= #[trigger] w[i] <= '9' || (i == 0
            && w[i] == '+')) by {
            if w[0] == '+' && i > 0 {
                assert(digits[i - 1] == w[i]);
            } else if w[0] != '+' {
                assert(digits[i] == w[i]);
            }
        }
        if w[0] == '+' {
            assert(digits[0] == w[1]);
        } else {
            assert(digits[0] == w[0]);
        }
        lemma_digits_value_nonneg(digits);
    }
    if exists|i: int| 0 <= i < w.len() && !('0' <= #[trigger] w[i] <= '9') && !(i == 0 && w[i]
        == '+') {
        let i = choose|i: int| 0 <= i < w.len() && !('0' <= #[trigger] w[i] <= '9') && !(i == 0
            && w[i] == '+');
        if w[0] == '+' {
            assert(digits[i - 1] == w[i]);
        } else {
            assert(digits[i] == w[i]);
        }
    }
    if w.len() > 0 && all_digits(w) && digits_value(w) <= u32::MAX {
        assert('0' <= w[0] <= '9');
        lemma_digits_value_nonneg(w);
    }
}

proof fn lemma_digits_value_nonneg(s: Seq<char>)
    requires
        all_digits(s),
    ensures
        digits_value(s) >= 0,
    decreases s.len(),
{
    if s.len() > 0 {
        lemma_digits_value_nonneg(s.drop_last());
    }
}

proof fn lemma_decimal_digits(n: nat)
    ensures
        decimal(n).len() > 0,
        all_digits(decimal(n)),
        digits_value(decimal(n)) == n,
    decreases n,
{
    let d = digit_char(n % 10);
    assert(digit_value(d) == n % 10 && '0' <= d <= '9');
    if n >= 10 {
        lemma_decimal_digits(n / 10);
        let s = decimal(n);
        assert(s.drop_last() =~= decimal(n / 10));
        assert(s.last() == d);
        vstd::arithmetic::div_mod::lemma_fundamental_div_mod(n as int, 10);
        assert(digits_value(s) == digits_value(decimal(n / 10)) * 10 + digit_value(d));
        assert(digits_value(s) == n);
        assert forall|i: int| 0 <= i < s.len() implies '0' <= #[trigger] s[i] <= '9' by {
            if i < s.len() - 1 {
                assert(s[i] == decimal(n / 10)[i]);
            }
        }
    } else {
        assert(decimal(n).drop_last() =~= Seq::<char>::empty());
        assert(decimal(n).last() == d);
        assert(n % 10 == n);
        assert(digits_value(decimal(n)) == digits_value(decimal(n).drop_last()) * 10 + digit_value(d));
        assert(digits_value(decimal(n)) == n);
    }
}

/// Any amount written in decimal reads back as that amount.
pub proof fn lemma_parse_decimal(n: u32)
    ensures
        parse_u32(decimal(n as nat)) == Some(n),
{
    lemma_decimal_digits(n as nat);
    assert(decimal(n as nat)[0] != '+');
}

/// Reads the characters of `text` from `a` to `b` as a number.
fn parse_number(text: &str, a: usize, b: usize) -> (res: Option<u32>)
    requires
        a <= b <= text@.len(),
    ensures
        res == parse_u32(text@.subrange(a as int, b as int)),
{
    let ghost w = text@.subrange(a as int, b as int);
    let mut start = a;
    if a < b && text.get_char(a) == '+' {
        start = a + 1;
    }
    let ghost digits = text@.subrange(start as int, b as int);
    assert(digits =~= if w.len() > 0 && w[0] == '+' {
        w.drop_first()
    } else {
        w
    });
    if start == b {
        return None;
    }
    let mut value: u64 = 0;
    let mut too_big = false;
    let mut i = start;
    while i < b
        invariant
            start <= i <= b <= text@.len(),
            digits == text@.subrange(start as int, b as int),
            w == text@.subrange(a as int, b as int),
            digits == (if w.len() > 0 && w[0] == '+' {
                w.drop_first()
            } else {
                w
            }),
            all_digits(text@.subrange(start as int, i as int)),
            too_big <==> digits_value(text@.subrange(start as int, i as int)) > u32::MAX,
            !too_big ==> value == digits_value(text@.subrange(start as int, i as int)),
        decreases b - i,
    {
        let c = text.get_char(i);
        let ghost pre = text@.subrange(start as int, i as int);
        let ghost next = text@.subrange(start as int, i + 1);
        assert(next.drop_last() =~= pre);
        assert(next.last() == c);
        if c < '0' || c > '9' {
            assert(!all_digits(digits)) by {
                assert(digits[i - start] == c);
            }
            return None;
        }
        proof {
            lemma_digits_value_nonneg(pre);
        }
        let d = (c as u32 - '0' as u32) as u64;
        if !too_big {
            value = value * 10 + d;
            if value > 0xffff_ffff {
                too_big = true;
            }
        }
        assert forall|j: int| 0 <= j < next.len() implies '0' <= #[trigger] next[j] <= '9' by {
            if j < pre.len() {
                assert(next[j] == pre[j]);
            }
        }
        i = i + 1;
    }
    assert(text@.subrange(start as int, b as int) == digits);
    if too_big {
        None
    } else {
        Some(value as u32)
    }
}

// ─── Dispatch ────────────────────────────────────────────────────────────

/// The model of an optional reply.
pub open spec fn reply_view(r: Option<String>) -> Option<Seq<char>> {
    match r {
        Some(s) => Some(s@),
        None => None,
    }
}

/// A table update and its reply, as an optional reply.
pub open spec fn replied(r: (GameView, Seq<char>)) -> (GameView, Option<Seq<char>>) {
    (r.0, Some(r.1))
}

/// What a chat message from `nick` does to the table and how the bot
/// answers, a round being dealt from `deck` where the command is
/// `!start`. Messages that are empty or hold no known command get no
/// answer and change nothing.
pub open spec fn command_result(g: GameView, nick: Seq<char>, msg: Seq<char>, deck: Seq<Card>) -> (
    GameView,
    Option<Seq<char>>,
) {
    match first_word(msg) {
        None => (g, None),
        Some(cmd) => if cmd == "!join"@ {
            replied(join_result(g, nick))
        } else if cmd == "!start"@ {
            replied(start_result(g, deck))
        } else if cmd == "!bet"@ {
            match second_word(msg) {
                None => (g, Some("Usage: !bet <amount>"@)),
                Some(arg) => match parse_u32(arg) {
                    Some(amount) => replied(bet_result(g, nick, BetAction::Bet(amount))),
                    None => (g, Some("Invalid bet amount."@)),
                },
            }
        } else if cmd == "!call"@ {
            replied(bet_result(g, nick, BetAction::Call))
        } else if cmd == "!check"@ {
            replied(bet_result(g, nick, BetAction::Check))
        } else if cmd == "!fold"@ {
            replied(bet_result(g, nick, BetAction::Fold))
        } else if cmd == "!next"@ {
            replied(advance_result(g))
        } else {
            (g, None)
        },
    }
}

/// The command can be carried out within the limits of the operation it
/// calls for.
pub open spec fn command_allowed(g: GameView, nick: Seq<char>, msg: Seq<char>) -> bool {
    match first_word(msg) {
        None => true,
        Some(cmd) => if cmd == "!start"@ {
            start_allowed(g, 52)
        } else if cmd == "!bet"@ {
            match second_word(msg) {
                Some(arg) => match parse_u32(arg) {
                    Some(amount) => bet_allowed(g, nick, BetAction::Bet(amount)),
                    None => true,
                },
                None => true,
            }
        } else if cmd == "!call"@ {
            bet_allowed(g, nick, BetAction::Call)
        } else if cmd == "!check"@ {
            bet_allowed(g, nick, BetAction::Check)
        } else if cmd == "!fold"@ {
            bet_allowed(g, nick, BetAction::Fold)
        } else if cmd == "!next"@ {
            advance_allowed(g)
        } else {
            true
        },
    }
}

/// A shuffled deck: the 52 cards in some order.
pub open spec fn is_shuffled_deck(deck: Seq<Card>) -> bool {
    deck.len() == 52 && deck.to_multiset() == standard_deck().to_multiset()
}

/// Where the first word of `msg` lies: its start and its end, or `None`.
fn first_word_at(msg: &str, n: usize) -> (res: Option<(usize, usize)>)
    requires
        n == msg@.len(),
    ensures
        match res {
            None => first_word(msg@) is None,
            Some((a, b)) => a <= b <= n && a == skip_space(msg@, 0) && b == word_end(msg@, a as int)
                && first_word(msg@) == Some(msg@.subrange(a as int, b as int)),
        },
{
    let a = skip_space_at(msg, n, 0);
    if a == n {
        return None;
    }
    let b = word_end_at(msg, n, a);
    Some((a, b))
}

/// Whether the command in `msg` can be carried out within the limits of
/// the operation it calls for (see `command_allowed`).
pub fn command_allowed_for(game: &PokerGame, nick: &str, msg: &str) -> (res: bool)
    ensures
        res == command_allowed(game@, nick@, msg@),
{
    proof {
        reveal_strlit("!start");
        reveal_strlit("!bet");
        reveal_strlit("!call");
        reveal_strlit("!check");
        reveal_strlit("!fold");
        reveal_strlit("!next");
    }
    let n = msg.unicode_len();
    match first_word_at(msg, n) {
        None => true,
        Some((a, b)) => {
            if spells(msg, a, b, "!start") {
                game.can_start()
            } else if spells(msg, a, b, "!bet") {
                let a1 = skip_space_at(msg, n, b);
                if a1 == n {
                    return true;
                }
                let b1 = word_end_at(msg, n, a1);
                match parse_number(msg, a1, b1) {
                    Some(amount) => game.can_bet(nick, BetAction::Bet(amount)),
                    None => true,
                }
            } else if spells(msg, a, b, "!call") {
                game.can_bet(nick, BetAction::Call)
            } else if spells(msg, a, b, "!check") {
                game.can_bet(nick, BetAction::Check)
            } else if spells(msg, a, b, "!fold") {
                game.can_bet(nick, BetAction::Fold)
            } else if spells(msg, a, b, "!next") {
                game.can_advance()
            } else {
                true
            }
        },
    }
}

/// Parse and handle a command received from the chat.
pub fn handle_command(game: &mut PokerGame, nick: &str, msg: &str) -> (res: Option<String>)
    requires
        command_allowed(old(game)@, nick@, msg@),
    ensures
        exists|deck: Seq<Card>|
            #![trigger command_result(old(game)@, nick@, msg@, deck)]
            is_shuffled_deck(deck) && (final(game)@, reply_view(res)) == command_result(
                old(game)@,
                nick@,
                msg@,
                deck,
            ),
{
    let ghost g = game@;
    proof {
        reveal_strlit("!join");
        reveal_strlit("!start");
        reveal_strlit("!bet");
        reveal_strlit("!call");
        reveal_strlit("!check");
        reveal_strlit("!fold");
        reveal_strlit("!next");
    }
    let ghost fresh = standard_deck();
    assert(is_shuffled_deck(fresh));
    let n = msg.unicode_len();
    let (a, b) = match first_word_at(msg, n) {
        None => {
            assert(command_result(g, nick@, msg@, fresh) == (g, None::<Seq<char>>));
            return None;
        },
        Some(w) => w,
    };
    if spells(msg, a, b, "!start") {
        let reply = game.start_round();
        let ghost deck = choose|deck: Seq<Card>|
            #![trigger start_result(g, deck)]
            deck.len() == 52 && deck.to_multiset() == standard_deck().to_multiset() && (
            game@,
            reply@,
        ) == start_result(g, deck);
        assert(first_word(msg@) == Some("!start"@));
        assert("!start"@ != "!join"@) by {
            assert("!start"@.len() != "!join"@.len());
        }
        assert(command_result(g, nick@, msg@, deck) == (game@, reply_view(Some(reply))));
        return Some(reply);
    }
    let reply = if spells(msg, a, b, "!join") {
        game.join(nick)
    } else if spells(msg, a, b, "!bet") {
        let a1 = skip_space_at(msg, n, b);
        if a1 == n {
            String::from_str("Usage: !bet <amount>")
        } else {
            let b1 = word_end_at(msg, n, a1);
            match parse_number(msg, a1, b1) {
                Some(amount) => game.process_bet(nick, BetAction::Bet(amount)),
                None => String::from_str("Invalid bet amount."),
            }
        }
    } else if spells(msg, a, b, "!call") {
        game.process_bet(nick, BetAction::Call)
    } else if spells(msg, a, b, "!check") {
        game.process_bet(nick, BetAction::Check)
    } else if spells(msg, a, b, "!fold") {
        game.process_bet(nick, BetAction::Fold)
    } else if spells(msg, a, b, "!next") {
        game.advance_stage()
    } else {
        assert(command_result(g, nick@, msg@, fresh) == (game@, None::<Seq<char>>));
        return None;
    };
    assert(command_result(g, nick@, msg@, fresh) == (game@, reply_view(Some(reply))));
    Some(reply)
}

} // verus!
