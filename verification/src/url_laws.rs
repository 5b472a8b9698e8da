//! What URL handling promises: the latency is added once, secrets are hidden.
use vstd::prelude::*;

use crate::chars::{
    cut, fields, find_in, join_with, lemma_fields_nonempty, lemma_find_from,
    lemma_found_at, stands_at,
};
use crate::csv::lemma_decimal_is_plain;
use crate::decimal::decimal;
use crate::url::{base_hidden, has_latency, hidden, redacted, secret_key, with_latency};

verus! {

/// The text does not hold the character.
pub open spec fn free_of(s: Seq<char>, c: char) -> bool {
    forall|k: int| 0 <= k < s.len() ==> #[trigger] s[k] != c
}

/// No text of the list holds the character.
pub open spec fn all_free_of(list: Seq<Seq<char>>, c: char) -> bool {
    forall|k: int| 0 <= k < list.len() ==> free_of(#[trigger] list[k], c)
}

proof fn lemma_digits(n: nat)
    ensures
        decimal(n).len() > 0,
        free_of(decimal(n), '&'),
        free_of(decimal(n), '?'),
{
    lemma_decimal_is_plain(n);
}

proof fn lemma_fields_of_free(s: Seq<char>, sep: char)
    requires
        free_of(s, sep),
    ensures
        fields(s, sep) == seq![s],
    decreases s.len(),
{
    if s.len() == 0 {
        assert(s =~= seq![]);
    } else {
        let init = s.drop_last();
        assert forall|k: int| 0 <= k < init.len() implies #[trigger] init[k] != sep by {
            assert(s[k] != sep);
        }
        lemma_fields_of_free(init, sep);
        assert(s[s.len() - 1] != sep);
        assert(init.push(s.last()) =~= s);
        assert(seq![init].update(0, s) =~= seq![s]);
    }
}

proof fn lemma_fields_are_free(s: Seq<char>, sep: char)
    ensures
        all_free_of(fields(s, sep), sep),
        fields(s, sep).len() > 0,
    decreases s.len(),
{
    if s.len() > 0 {
        lemma_fields_are_free(s.drop_last(), sep);
        let head = fields(s.drop_last(), sep);
        let all = fields(s, sep);
        assert forall|k: int| 0 <= k < all.len() implies free_of(#[trigger] all[k], sep) by {
            if k < head.len() - 1 {
                assert(all[k] == head[k]);
            } else if s.last() != sep {
                assert(free_of(head[head.len() - 1], sep));
            } else if k < head.len() {
                assert(all[k] == head[k]);
            }
        }
    }
}

/// A separator and a text without one add one field.
proof fn lemma_fields_append(a: Seq<char>, b: Seq<char>, sep: char)
    requires
        free_of(b, sep),
    ensures
        fields(a.push(sep) + b, sep) == fields(a, sep).push(b),
    decreases b.len(),
{
    let whole = a.push(sep) + b;
    if b.len() == 0 {
        assert(whole =~= a.push(sep));
        assert(whole.drop_last() =~= a);
        assert(b =~= seq![]);
    } else {
        let init = b.drop_last();
        assert forall|k: int| 0 <= k < init.len() implies #[trigger] init[k] != sep by {
            assert(b[k] != sep);
        }
        lemma_fields_append(a, init, sep);
        assert(whole.drop_last() =~= a.push(sep) + init);
        assert(b[b.len() - 1] != sep);
        assert(init.push(b.last()) =~= b);
        let head = fields(a, sep).push(init);
        assert(head.update(head.len() - 1, b) =~= fields(a, sep).push(b));
    }
}

/// Splitting undoes joining, of texts without the separator.
pub proof fn law_split_undoes_join(list: Seq<Seq<char>>, sep: char)
    requires
        list.len() > 0,
        all_free_of(list, sep),
    ensures
        fields(join_with(list, sep), sep) == list,
    decreases list.len(),
{
    assert(free_of(list[list.len() - 1], sep));
    if list.len() == 1 {
        lemma_fields_of_free(list[0], sep);
        assert(list =~= seq![list[0]]);
    } else {
        let init = list.drop_last();
        assert forall|k: int| 0 <= k < init.len() implies free_of(#[trigger] init[k], sep) by {
            assert(init[k] == list[k]);
        }
        law_split_undoes_join(init, sep);
        lemma_fields_append(join_with(init, sep), list.last(), sep);
        assert(init.push(list.last()) =~= list);
    }
}

/// A one-character pattern stands where the character is.
proof fn lemma_mark(s: Seq<char>, mark: Seq<char>, i: int)
    requires
        mark.len() == 1,
    ensures
        stands_at(s, mark, i) <==> 0 <= i < s.len() && s[i] == mark[0],
{
    if 0 <= i < s.len() {
        if s[i] == mark[0] {
            assert(s.subrange(i, i + 1) =~= mark);
        } else {
            assert(s.subrange(i, i + 1)[0] == s[i]);
        }
    }
}

/// The first mark of a text that has none before it.
proof fn lemma_cut_at_mark(head: Seq<char>, tail: Seq<char>, c: char, mark: Seq<char>)
    requires
        mark =~= seq![c],
        free_of(head, c),
    ensures
        cut(head.push(c) + tail, mark) == Some((head, tail)),
{
    let s = head.push(c) + tail;
    let n = head.len() as int;
    lemma_mark(s, mark, n);
    assert forall|j: int| 0 <= j < n implies !#[trigger] stands_at(s, mark, j) by {
        lemma_mark(s, mark, j);
        assert(s[j] == head[j]);
    }
    lemma_found_at(s, mark, 0, n);
    assert(s.take(n) =~= head);
    assert(s.skip(n + 1) =~= tail);
}

/// Cutting at a mark gives back the text around it, nothing of it before.
proof fn lemma_cut_parts(s: Seq<char>, c: char, mark: Seq<char>)
    requires
        mark =~= seq![c],
    ensures
        cut(s, mark) matches Some(p) ==> s == p.0.push(c) + p.1 && free_of(p.0, c),
        cut(s, mark) is None ==> free_of(s, c),
{
    lemma_find_from(s, mark, 0);
    match find_in(s, mark) {
        Some(i) => {
            lemma_mark(s, mark, i);
            let head = s.take(i);
            assert forall|k: int| 0 <= k < head.len() implies #[trigger] head[k] != c by {
                lemma_mark(s, mark, k);
                assert(!stands_at(s, mark, k));
            }
            assert(s =~= head.push(c) + s.skip(i + 1));
        },
        None => {
            assert forall|k: int| 0 <= k < s.len() implies #[trigger] s[k] != c by {
                lemma_mark(s, mark, k);
                assert(!stands_at(s, mark, k));
            }
        },
    }
}

/// The latency is added once: a URL that has been given one keeps it.
pub proof fn law_latency_is_added_once(url: Seq<char>, a: u32, b: u32)
    ensures
        has_latency(with_latency(url, a)),
        with_latency(with_latency(url, a), b) == with_latency(url, a),
{
    if !has_latency(url) {
        reveal_strlit("?");
        reveal_strlit("&latency=");
        reveal_strlit("?latency=");
        reveal_strlit("latency=");
        let mark = "?"@;
        assert(mark =~= seq!['?']);
        let digits = decimal(a as nat);
        lemma_digits(a as nat);
        let param = "latency="@ + digits;
        assert(free_of("latency="@, '&')) by {
            assert forall|k: int| 0 <= k < "latency="@.len() implies #[trigger] "latency="@[k]
                != '&' by {}
        }
        assert(free_of(param, '&'));
        let out = with_latency(url, a);
        lemma_cut_parts(url, '?', mark);
        match cut(url, mark) {
            Some(p) => {
                let query = p.1.push('&') + param;
                assert("&latency="@ =~= seq!['&'] + "latency="@);
                assert(out =~= p.0.push('?') + query);
                lemma_cut_at_mark(p.0, query, '?', mark);
                lemma_fields_append(p.1, param, '&');
                lemma_fields_nonempty(p.1, '&');
                let n = fields(p.1, '&').len() as int;
                assert(fields(query, '&')[n] == param);
                assert("latency="@ =~= param.subrange(0, "latency="@.len() as int));
                assert("latency="@.is_prefix_of(fields(query, '&')[n]));
                let q = cut(out, "?"@)->0;
                assert(q == (p.0, query));
                assert("latency="@.is_prefix_of(fields(q.1, '&')[n]));
                assert(has_latency(out));
            },
            None => {
                assert("?latency="@ =~= seq!['?'] + "latency="@);
                assert(out =~= url.push('?') + param);
                lemma_cut_at_mark(url, param, '?', mark);
                lemma_fields_of_free(param, '&');
                assert("latency="@ =~= param.subrange(0, "latency="@.len() as int));
                assert("latency="@.is_prefix_of(fields(param, '&')[0]));
                let q = cut(out, "?"@)->0;
                assert(q == (url, param));
                assert("latency="@.is_prefix_of(fields(q.1, '&')[0]));
                assert(has_latency(out));
            },
        }
    }
}

proof fn lemma_hidden(param: Seq<char>)
    requires
        free_of(param, '&'),
    ensures
        free_of(hidden(param), '&'),
        cut(hidden(param), "="@) matches Some(p) ==> (secret_key(p.0) ==> p.1 == "***"@),
{
    reveal_strlit("=");
    reveal_strlit("=***");
    reveal_strlit("***");
    let sign = "="@;
    assert(sign =~= seq!['=']);
    lemma_cut_parts(param, '=', sign);
    if let Some(p) = cut(param, sign) {
        if secret_key(p.0) {
            let out = p.0 + "=***"@;
            assert(out =~= p.0.push('=') + "***"@);
            lemma_cut_at_mark(p.0, "***"@, '=', sign);
            assert forall|k: int| 0 <= k < out.len() implies #[trigger] out[k] != '&' by {
                if k < p.0.len() {
                    assert(out[k] == param[k]);
                }
            }
        }
    }
}

proof fn lemma_join_free(list: Seq<Seq<char>>, sep: char, c: char)
    requires
        all_free_of(list, c),
        sep != c,
    ensures
        free_of(join_with(list, sep), c),
    decreases list.len(),
{
    if list.len() == 1 {
        assert(free_of(list[0], c));
    } else if list.len() > 1 {
        let init = list.drop_last();
        assert forall|k: int| 0 <= k < init.len() implies free_of(#[trigger] init[k], c) by {
            assert(init[k] == list[k]);
        }
        lemma_join_free(init, sep, c);
        assert(free_of(list[list.len() - 1], c));
    }
}

proof fn lemma_fields_keep_free(s: Seq<char>, sep: char, c: char)
    requires
        free_of(s, c),
    ensures
        all_free_of(fields(s, sep), c),
        fields(s, sep).len() > 0,
    decreases s.len(),
{
    if s.len() > 0 {
        let init = s.drop_last();
        assert forall|k: int| 0 <= k < init.len() implies #[trigger] init[k] != c by {
            assert(s[k] != c);
        }
        lemma_fields_keep_free(init, sep, c);
        let head = fields(init, sep);
        let all = fields(s, sep);
        assert(s[s.len() - 1] != c);
        assert forall|k: int| 0 <= k < all.len() implies free_of(#[trigger] all[k], c) by {
            if k < head.len() {
                assert(free_of(head[k], c));
            }
        }
    }
}

proof fn lemma_base_hidden_free(base: Seq<char>)
    requires
        free_of(base, '?'),
    ensures
        free_of(base_hidden(base), '?'),
{
    reveal_strlit("://");
    reveal_strlit("/***");
    lemma_find_from(base, "://"@, 0);
    if let Some(p) = cut(base, "://"@) {
        let i = find_in(base, "://"@)->0;
        assert(free_of(p.0, '?')) by {
            assert forall|k: int| 0 <= k < p.0.len() implies #[trigger] p.0[k] != '?' by {
                assert(p.0[k] == base[k]);
            }
        }
        assert(free_of(p.1, '?')) by {
            assert forall|k: int| 0 <= k < p.1.len() implies #[trigger] p.1[k] != '?' by {
                assert(p.1[k] == base[k + i + 3]);
            }
        }
        let parts = fields(p.1, '/');
        lemma_fields_keep_free(p.1, '/', '?');
        let kept = parts.drop_last();
        assert forall|k: int| 0 <= k < kept.len() implies free_of(#[trigger] kept[k], '?') by {
            assert(kept[k] == parts[k]);
        }
        lemma_join_free(kept, '/', '?');
    }
}

/// No secret of the query is shown: in a redacted URL the value of every secret
/// parameter is `***`, and there are as many parameters as before.
pub proof fn law_query_secrets_are_hidden(url: Seq<char>)
    ensures
        cut(redacted(url), "?"@) is Some == cut(url, "?"@) is Some,
        cut(redacted(url), "?"@) matches Some(p) ==> {
            &&& fields(p.1, '&').len() == fields((cut(url, "?"@)->0).1, '&').len()
            &&& forall|k: int|
                0 <= k < fields(p.1, '&').len() ==> (cut(
                    #[trigger] fields(p.1, '&')[k],
                    "="@,
                ) matches Some(kv) ==> (secret_key(kv.0) ==> kv.1 == "***"@))
        },
{
    reveal_strlit("?");
    let mark = "?"@;
    assert(mark =~= seq!['?']);
    lemma_cut_parts(url, '?', mark);
    match cut(url, mark) {
        Some(p) => {
            let params = fields(p.1, '&');
            let shown = params.map_values(|f: Seq<char>| hidden(f));
            lemma_fields_are_free(p.1, '&');
            assert forall|k: int| 0 <= k < shown.len() implies free_of(#[trigger] shown[k], '&') by {
                assert(free_of(params[k], '&'));
                lemma_hidden(params[k]);
            }
            law_split_undoes_join(shown, '&');
            lemma_base_hidden_free(p.0);
            lemma_cut_at_mark(base_hidden(p.0), join_with(shown, '&'), '?', mark);
            assert forall|k: int| 0 <= k < shown.len() implies (cut(
                #[trigger] shown[k],
                "="@,
            ) matches Some(kv) ==> (secret_key(kv.0) ==> kv.1 == "***"@)) by {
                assert(free_of(params[k], '&'));
                lemma_hidden(params[k]);
            }
        },
        None => {
            lemma_base_hidden_free(url);
            lemma_find_from(base_hidden(url), mark, 0);
            if let Some(i) = find_in(base_hidden(url), mark) {
                lemma_mark(base_hidden(url), mark, i);
            }
        },
    }
}

} // verus!
