//! How texts are cut, compared and trimmed, and what is read out of them.
use vstd::prelude::*;

use crate::content::Token;

verus! {

use crate::content::{demand_at, is_guard, is_word, slot_aspect};
use crate::endpoint::{base_of, url_of};
use crate::harness::{filled, listed, roster_names};
use crate::text::{
    decimal, is_space, law_decimal_round_trips, number_within, replaced, segments, stands_at,
    text_lt, trimmed, without_spaces,
};

/// The pieces put together again, with the separator between them.
pub open spec fn joined(pieces: Seq<Seq<char>>, sep: char) -> Seq<char>
    decreases pieces.len(),
{
    if pieces.len() == 0 {
        Seq::empty()
    } else if pieces.len() == 1 {
        pieces[0]
    } else {
        joined(pieces.drop_last(), sep).push(sep) + pieces.last()
    }
}

/// A text cut at a separator is made of pieces without it, which put together again are the
/// text.
pub proof fn law_pieces_make_up_the_text(s: Seq<char>, sep: char)
    ensures
        segments(s, sep).len() > 0,
        joined(segments(s, sep), sep) == s,
        forall|i: int|
            0 <= i < segments(s, sep).len() ==> !(#[trigger] segments(s, sep)[i]).contains(sep),
    decreases s.len(),
{
    if s.len() == 0 {
        assert(joined(segments(s, sep), sep) =~= s);
    } else {
        let rest = s.drop_last();
        law_pieces_make_up_the_text(rest, sep);
        let r = segments(rest, sep);
        let all = segments(s, sep);
        assert(s =~= rest.push(s.last()));
        if s.last() == sep {
            assert(all.drop_last() =~= r);
            assert(joined(all, sep) =~= joined(r, sep).push(sep) + Seq::<char>::empty());
            assert(joined(all, sep) =~= s);
        } else {
            let n = r.len() - 1;
            assert(all.drop_last() =~= r.drop_last());
            assert(all.last() == r.last().push(s.last()));
            assert(joined(all, sep) =~= joined(r, sep).push(s.last())) by {
                if r.len() > 1 {
                    assert(joined(r, sep) == joined(r.drop_last(), sep).push(sep) + r.last());
                    assert(joined(all, sep) == joined(all.drop_last(), sep).push(sep)
                        + all.last());
                }
            }
            assert forall|i: int| 0 <= i < all.len() implies !(#[trigger] all[i]).contains(sep) by {
                if i < n {
                    assert(all[i] == r[i]);
                } else {
                    assert(all[i] == r[n].push(s.last()));
                    if all[i].contains(sep) {
                        let k = all[i].index_of(sep);
                        assert(r[n][k] == sep);
                    }
                }
            }
        }
    }
}

/// A text with a separator and a piece without it behind it is cut into its pieces and that
/// one.
pub proof fn law_one_more_piece(s: Seq<char>, sep: char, piece: Seq<char>)
    requires
        !piece.contains(sep),
    ensures
        segments(s.push(sep) + piece, sep) == segments(s, sep).push(piece),
        segments(piece, sep) == seq![piece],
    decreases piece.len(),
{
    let t = s.push(sep) + piece;
    if piece.len() == 0 {
        assert(t =~= s.push(sep));
        assert(t.drop_last() =~= s);
        assert(piece =~= Seq::empty());
        assert(segments(piece, sep) =~= seq![piece]);
        assert(segments(t, sep) =~= segments(s, sep).push(piece));
    } else {
        let p = piece.drop_last();
        assert(!p.contains(sep)) by {
            if p.contains(sep) {
                let k = p.index_of(sep);
                assert(piece[k] == sep);
            }
        }
        law_one_more_piece(s, sep, p);
        assert(t.drop_last() =~= s.push(sep) + p);
        assert(t.last() == piece.last());
        assert(piece.contains(piece.last())) by {
            assert(piece[piece.len() - 1] == piece.last());
        }
        assert(p.push(piece.last()) =~= piece);
        assert(segments(t, sep) =~= segments(s, sep).push(piece));
        assert(segments(piece, sep) =~= seq![piece]);
    }
}

/// Texts are in order by their first difference, and a text comes before what it is the
/// start of.
pub proof fn law_texts_are_ordered_by_their_first_difference(
    p: Seq<char>,
    x: char,
    s: Seq<char>,
    y: char,
    t: Seq<char>,
)
    ensures
        x != y ==> (text_lt(p.push(x) + s, p.push(y) + t) <==> x < y),
        text_lt(p, p.push(x) + s),
        !text_lt(p.push(x) + s, p),
        !text_lt(p, p),
    decreases p.len(),
{
    let a = p.push(x) + s;
    let b = p.push(y) + t;
    if p.len() > 0 {
        law_texts_are_ordered_by_their_first_difference(p.skip(1), x, s, y, t);
        assert(a.skip(1) =~= p.skip(1).push(x) + s);
        assert(b.skip(1) =~= p.skip(1).push(y) + t);
        assert(a[0] == p[0] && b[0] == p[0]);
    } else {
        assert(a[0] == x && b[0] == y);
    }
}

/// White space goes from both ends, and nothing else does.
pub proof fn law_only_white_space_is_trimmed(s: Seq<char>)
    ensures
        exists|l: Seq<char>, r: Seq<char>|
            s == #[trigger] (l + without_spaces(s) + r) && (forall|i: int|
                0 <= i < l.len() ==> is_space(#[trigger] l[i])) && (forall|i: int|
                0 <= i < r.len() ==> is_space(#[trigger] r[i])),
        without_spaces(s).len() > 0 ==> !is_space(without_spaces(s)[0]) && !is_space(
            without_spaces(s).last(),
        ),
    decreases s.len(),
{
    crate::text::law_trimming_is_idempotent(s);
    let w = without_spaces(s);
    if s.len() > 0 && is_space(s[0]) {
        law_only_white_space_is_trimmed(s.skip(1));
        let (l, r) = choose|l: Seq<char>, r: Seq<char>|
            s.skip(1) == #[trigger] (l + w + r) && (forall|i: int|
                0 <= i < l.len() ==> is_space(#[trigger] l[i])) && (forall|i: int|
                0 <= i < r.len() ==> is_space(#[trigger] r[i]));
        let k = seq![s[0]] + l;
        assert(s =~= seq![s[0]] + s.skip(1));
        assert(s =~= k + w + r);
    } else if s.len() > 0 && is_space(s.last()) {
        law_only_white_space_is_trimmed(s.drop_last());
        let (l, r) = choose|l: Seq<char>, r: Seq<char>|
            s.drop_last() == #[trigger] (l + w + r) && (forall|i: int|
                0 <= i < l.len() ==> is_space(#[trigger] l[i])) && (forall|i: int|
                0 <= i < r.len() ==> is_space(#[trigger] r[i]));
        let k = r.push(s.last());
        assert(s =~= s.drop_last().push(s.last()));
        assert(s =~= l + w + k);
    } else {
        let e = Seq::<char>::empty();
        assert(s =~= e + w + e);
    }
}

/// Of the plain characters the blank, the tab and the line ends and feeds are white space.
pub proof fn law_plain_white_space(c: char)
    requires
        (c as u32) < 0x80,
    ensures
        is_space(c) <==> c as u32 == 0x20 || 9 <= c as u32 <= 13,
{
}

/// A suffix is cut off as often as the text ends with it, and not once more.
pub proof fn law_suffix_is_cut_off(s: Seq<char>, suffix: Seq<char>)
    requires
        suffix.len() > 0,
    ensures
        trimmed(s + suffix, suffix) == trimmed(s, suffix),
        !(trimmed(s, suffix).len() >= suffix.len() && trimmed(s, suffix).skip(
            trimmed(s, suffix).len() - suffix.len(),
        ) == suffix),
        !(s.len() >= suffix.len() && s.skip(s.len() - suffix.len()) == suffix) ==> trimmed(
            s,
            suffix,
        ) == s,
    decreases s.len(),
{
    let t = s + suffix;
    assert(t.subrange(t.len() - suffix.len(), t.len() as int) =~= suffix);
    assert(t.take(t.len() - suffix.len()) =~= s);
    let n = s.len() - suffix.len();
    if n >= 0 {
        assert(s.skip(n) =~= s.subrange(n, s.len() as int));
        if stands_at(s, suffix, n) {
            law_suffix_is_cut_off(s.take(n), suffix);
        }
    }
}

/// A text that stands nowhere is not replaced; where it first stands it is, and the
/// replacing goes on behind it.
pub proof fn law_first_stand_is_replaced(
    a: Seq<char>,
    from: Seq<char>,
    to: Seq<char>,
    b: Seq<char>,
)
    requires
        from.len() > 0,
        forall|i: int|
            0 <= i < a.len() ==> (a + from + b).skip(i).take(from.len() as int) != from,
    ensures
        replaced(a + from + b, from, to) == a + to + replaced(b, from, to),
    decreases a.len(),
{
    let s = a + from + b;
    if a.len() == 0 {
        assert(s.subrange(0, from.len() as int) =~= from);
        assert(s.skip(from.len() as int) =~= b);
        assert(a + to =~= to);
    } else {
        let c = a.skip(1);
        assert(s.skip(0).take(from.len() as int) != from);
        assert(s.skip(0).take(from.len() as int) =~= s.subrange(0, from.len() as int));
        assert(s.skip(1) =~= c + from + b);
        assert forall|i: int| 0 <= i < c.len() implies (c + from + b).skip(i).take(
            from.len() as int,
        ) != from by {
            assert((c + from + b).skip(i) =~= s.skip(i + 1));
            assert(s.skip(i + 1).take(from.len() as int) != from);
        }
        law_first_stand_is_replaced(c, from, to, b);
        assert(s[0] == a[0]);
        assert(seq![a[0]] + (c + to + replaced(b, from, to)) =~= a + to + replaced(b, from, to));
    }
}

/// Nothing is replaced where there is nothing to replace.
pub proof fn law_absent_text_is_not_replaced(s: Seq<char>, from: Seq<char>, to: Seq<char>)
    requires
        from.len() > 0,
        forall|i: int|
            0 <= i && i + from.len() <= s.len() ==> s.skip(i).take(from.len() as int) != from,
    ensures
        replaced(s, from, to) == s,
    decreases s.len(),
{
    if s.len() >= from.len() {
        assert(s.skip(0).take(from.len() as int) != from);
        assert(s.skip(0).take(from.len() as int) =~= s.subrange(0, from.len() as int));
        let t = s.skip(1);
        assert forall|i: int| 0 <= i && i + from.len() <= t.len() implies t.skip(i).take(
            from.len() as int,
        ) != from by {
            assert(t.skip(i) =~= s.skip(i + 1));
            assert(s.skip(i + 1).take(from.len() as int) != from);
        }
        law_absent_text_is_not_replaced(t, from, to);
        assert(seq![s[0]] + t =~= s);
    }
}

/// The HTTP base of a socket address speaks HTTP where the address speaks WS, plain or
/// secured, and ends without the socket's path. (A host of the path's own name would be
/// taken for it.)
pub proof fn law_base_follows_the_socket(host: Seq<char>, secured: bool)
    requires
        host != "ws"@,
        forall|i: int|
            #![trigger host[i]]
            0 <= i < host.len() ==> host[i] != ':' && host[i] != '/',
    ensures
        base_of(
            (if secured {
                "wss://"@
            } else {
                "ws://"@
            }) + host + "/ws"@,
        ) == (if secured {
            "https://"@
        } else {
            "http://"@
        }) + host,
{
    reveal_strlit("ws://");
    reveal_strlit("wss://");
    reveal_strlit("http://");
    reveal_strlit("https://");
    reveal_strlit("/ws");
    let tail = host + "/ws"@;
    let e = Seq::<char>::empty();
    lemma_no_scheme(host, e, "ws://"@);
    lemma_no_scheme(host, e, "wss://"@);
    if secured {
        let url = "wss://"@ + host + "/ws"@;
        assert(url =~= "wss://"@ + tail);
        lemma_no_scheme(host, "wss://"@, "ws://"@);
        law_absent_text_is_not_replaced(url, "ws://"@, "http://"@);
        assert(e + "wss://"@ + tail =~= url);
        law_first_stand_is_replaced(e, "wss://"@, "https://"@, tail);
        assert(e + tail =~= tail);
        law_absent_text_is_not_replaced(tail, "wss://"@, "https://"@);
        let http = "https://"@ + tail;
        assert(e + "https://"@ + tail =~= http);
        assert(http =~= "https://"@ + host + "/ws"@);
        lemma_base_end("https://"@, host);
    } else {
        let url = "ws://"@ + host + "/ws"@;
        assert(e + "ws://"@ + tail =~= url);
        law_first_stand_is_replaced(e, "ws://"@, "http://"@, tail);
        assert(e + tail =~= tail);
        law_absent_text_is_not_replaced(tail, "ws://"@, "http://"@);
        let http = "http://"@ + tail;
        assert(e + "http://"@ + tail =~= http);
        lemma_no_scheme(host, "http://"@, "wss://"@);
        assert(http =~= "http://"@ + host + "/ws"@);
        law_absent_text_is_not_replaced(http, "wss://"@, "https://"@);
        lemma_base_end("http://"@, host);
    }
}

proof fn lemma_base_end(scheme: Seq<char>, host: Seq<char>)
    requires
        scheme == "http://"@ || scheme == "https://"@,
        host != "ws"@,
        forall|i: int|
            #![trigger host[i]]
            0 <= i < host.len() ==> host[i] != ':' && host[i] != '/',
    ensures
        trimmed(scheme + host + "/ws"@, "/ws"@) == scheme + host,
{
    reveal_strlit("http://");
    reveal_strlit("https://");
    reveal_strlit("/ws");
    let s = scheme + host;
    law_suffix_is_cut_off(s, "/ws"@);
    if s.len() >= 3 && s.skip(s.len() - 3) == "/ws"@ {
        assert(s.skip(s.len() - 3)[0] == '/');
        assert(s.skip(s.len() - 3)[2] == 's');
        assert(s[s.len() - 3] == '/');
        assert(s[s.len() - 1] == 's');
        if host.len() >= 3 {
            assert(host[host.len() - 3] == '/');
        } else if host.len() == 0 {
            assert(s[s.len() - 1] == '/');
        } else if host.len() == 1 {
            assert(s.skip(s.len() - 3)[1] == 'w');
            assert(s[s.len() - 2] == '/');
        } else {
            assert(s.skip(s.len() - 3)[1] == 'w');
            assert(host[0] == 'w' && host[1] == 's');
            reveal_strlit("ws");
            assert(host =~= "ws"@);
        }
    }
}

proof fn lemma_no_scheme(host: Seq<char>, head: Seq<char>, from: Seq<char>)
    requires
        from == "ws://"@ || from == "wss://"@,
        head.len() == 0 || (head == "wss://"@ && from == "ws://"@) || (head == "http://"@ && from
            == "wss://"@),
        forall|i: int|
            #![trigger host[i]]
            0 <= i < host.len() ==> host[i] != ':' && host[i] != '/',
    ensures
        forall|i: int|
            0 <= i && i + from.len() <= (head + host + "/ws"@).len() ==> (head + host
                + "/ws"@).skip(i).take(from.len() as int) != from,
        head.len() == 0 ==> forall|i: int|
            0 <= i && i + from.len() <= (host + "/ws"@).len() ==> (host + "/ws"@).skip(i).take(
                from.len() as int,
            ) != from,
{
    reveal_strlit("ws://");
    reveal_strlit("wss://");
    reveal_strlit("http://");
    reveal_strlit("/ws");
    let s = head + host + "/ws"@;
    let n = from.len() as int;
    let colon = n - 3;
    assert(from[colon] == ':');
    assert forall|i: int| 0 <= i && i + n <= s.len() implies s.skip(i).take(n) != from by {
        let t = s.skip(i).take(n);
        if t == from {
            assert(t[colon] == s[i + colon]);
            assert(s[i + colon] == ':');
            assert(i + colon < head.len()) by {
                if i + colon >= head.len() {
                    if i + colon < head.len() + host.len() {
                        assert(host[i + colon - head.len()] == ':');
                    } else {
                        assert("/ws"@[i + colon - head.len() - host.len()] == ':');
                    }
                }
            }
            assert(head[i + colon] == ':');
            if head == "wss://"@ {
                assert(i + colon == 3);
                assert(t[0] == s[i]);
                assert(s[1] == 's');
            } else {
                assert(head == "http://"@);
                assert(i + colon == 4);
                assert(t[0] == s[i]);
                assert(s[1] == 't');
            }
        }
    }
    if head.len() == 0 {
        assert(s =~= host + "/ws"@);
    }
}

/// The address given goes first; else that of the named environment; else the default.
pub proof fn law_given_address_goes_first(
    given: Option<Seq<char>>,
    env: Option<Seq<char>>,
    default: Seq<char>,
)
    ensures
        given matches Some(url) ==> url_of(given, env, default) == url,
        given is None && env == Some("dev"@) ==> url_of(given, env, default)
            == "ws://gate:8473/ws"@,
        given is None && env == Some("test"@) ==> url_of(given, env, default)
            == "ws://gate-test:8475/ws"@,
        given is None && env != Some("dev"@) && env != Some("test"@) ==> url_of(given, env, default)
            == default,
{
    reveal_strlit("dev");
    reveal_strlit("test");
    assert("dev"@.len() != "test"@.len());
}

/// The names of a roster are those given that are not empty, in their order; where none is,
/// there are two.
pub proof fn law_roster_has_the_names_given(names: Seq<Seq<char>>)
    ensures
        filled(names) == names.filter(|n: Seq<char>| n.len() > 0),
        filled(names).len() > 0 ==> roster_names(names) == filled(names),
        filled(names).len() == 0 ==> roster_names(names) == seq!["alice"@, "bob"@],
    decreases names.len(),
{
    reveal(Seq::filter);
    if names.len() > 0 {
        law_roster_has_the_names_given(names.drop_last());
    }
}

/// The names of a list are what stands between its commas, without the white space around.
pub proof fn law_listed_names_stand_between_commas(list: Seq<char>)
    ensures
        listed(None).len() == 0,
        listed(Some(list)).len() == segments(list, ',').len(),
        forall|i: int|
            0 <= i < segments(list, ',').len() ==> #[trigger] listed(Some(list))[i]
                == without_spaces(segments(list, ',')[i]),
{
}

/// The path to an aspect of what stands at a place of a branch.
pub open spec fn slot_path(b: Seq<char>, o: Seq<char>, aspect: Seq<char>) -> Seq<char> {
    joined(seq!["slot"@, b, o, "aspect"@, aspect], '.')
}

/// Three tokens demand an aspect only where they are a path, a number and a comparison
/// that only a positive value passes, and the path reads that aspect off a slot.
pub proof fn law_demands_are_positive_readings(toks: Seq<Token>, j: int, aspect: Seq<char>)
    requires
        demand_at(toks, j) == Some(aspect),
    ensures
        0 <= j,
        j + 2 < toks.len(),
        toks[j] matches Token::Value(path) && toks[j + 1] matches Token::Number(k) && toks[j
            + 2] matches Token::Word(op) && ((op@ == "ge"@ && k >= 1) || (op@ == "gt"@ && k >= 0))
            && exists|b: Seq<char>, o: Seq<char>| #[trigger]
            slot_path(b, o, aspect) == path@ && !b.contains('.')
                && !o.contains('.') && !aspect.contains('.') && number_within(b, u32::MAX as nat) is Some
                && number_within(o, u32::MAX as nat) is Some,
{
    let path = toks[j]->Value_0@;
    let segs = segments(path, '.');
    law_pieces_make_up_the_text(path, '.');
    assert(segs =~= seq!["slot"@, segs[1], segs[2], "aspect"@, aspect]);
    assert(slot_path(segs[1], segs[2], aspect) == path);
}

/// A path through a slot's branch and place to an aspect reads that aspect.
pub proof fn law_slot_paths_read_their_aspect(b: u32, o: u32, aspect: Seq<char>)
    requires
        !aspect.contains('.'),
    ensures
        slot_aspect(slot_path(decimal(b as nat), decimal(o as nat), aspect)) == Some(aspect),
{
    let db = decimal(b as nat);
    let d_o = decimal(o as nat);
    reveal_strlit("slot");
    reveal_strlit("aspect");
    lemma_plain_number(b as nat);
    lemma_plain_number(o as nat);
    law_decimal_round_trips(b as nat);
    law_decimal_round_trips(o as nat);
    let p1 = seq!["slot"@];
    let p2 = p1.push(db);
    let p3 = p2.push(d_o);
    let p4 = p3.push("aspect"@);
    let p5 = p4.push(aspect);
    assert(seq!["slot"@, db, d_o, "aspect"@, aspect] =~= p5);
    assert(!"slot"@.contains('.'));
    assert(!"aspect"@.contains('.'));
    law_one_more_piece(Seq::empty(), '.', "slot"@);
    assert(joined(p1, '.') == "slot"@);
    lemma_join(p1, '.', db);
    law_one_more_piece(joined(p1, '.'), '.', db);
    lemma_join(p2, '.', d_o);
    law_one_more_piece(joined(p2, '.'), '.', d_o);
    lemma_join(p3, '.', "aspect"@);
    law_one_more_piece(joined(p3, '.'), '.', "aspect"@);
    lemma_join(p4, '.', aspect);
    law_one_more_piece(joined(p4, '.'), '.', aspect);
    assert(segments(joined(p5, '.'), '.') =~= p5);
}

proof fn lemma_join(pieces: Seq<Seq<char>>, sep: char, piece: Seq<char>)
    requires
        pieces.len() > 0,
    ensures
        joined(pieces.push(piece), sep) == joined(pieces, sep).push(sep) + piece,
{
    assert(pieces.push(piece).drop_last() =~= pieces);
}

proof fn lemma_plain_number(n: nat)
    ensures
        !decimal(n).contains('.'),
    decreases n,
{
    if n < 10 {
        let d = decimal(n);
        if d.contains('.') {
            let k = d.index_of('.');
            assert(d[k] == '.');
        }
    } else {
        lemma_plain_number(n / 10);
        let d = decimal(n);
        if d.contains('.') {
            let k = d.index_of('.');
            if k < decimal(n / 10).len() {
                assert(decimal(n / 10)[k] == '.');
            } else {
                assert(d[k] == crate::text::digit(n % 10));
            }
        }
    }
}

/// A line is sound to index where it is guarded and has no alternative.
pub proof fn law_guards_have_no_alternative(toks: Seq<Token>)
    ensures
        is_guard(toks) <==> (exists|j: int|
            0 <= j < toks.len() && ((#[trigger] toks[j]) matches Token::Word(x) && x@ == "if"@))
            && !(exists|j: int|
            0 <= j < toks.len() && ((#[trigger] toks[j]) matches Token::Word(x) && x@ == "or"@)),
{
    if exists|j: int|
        0 <= j < toks.len() && ((#[trigger] toks[j]) matches Token::Word(x) && x@ == "if"@) {
        let j = choose|j: int|
            0 <= j < toks.len() && ((#[trigger] toks[j]) matches Token::Word(x) && x@ == "if"@);
        assert(is_word(toks[j], "if"@));
    }
    if exists|j: int|
        0 <= j < toks.len() && ((#[trigger] toks[j]) matches Token::Word(x) && x@ == "or"@) {
        let j = choose|j: int|
            0 <= j < toks.len() && ((#[trigger] toks[j]) matches Token::Word(x) && x@ == "or"@);
        assert(is_word(toks[j], "or"@));
    }
}

} // verus!
