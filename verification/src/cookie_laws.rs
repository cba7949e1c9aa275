//! What the cookie jar promises.

use crate::cookie;
use crate::cookie::CookieView;
use crate::date;
use crate::text;
use crate::text_laws;
use crate::url::UrlView;
use vstd::prelude::*;

verus! {

/// A `Secure` cookie goes out over `https` alone.
pub proof fn law_secure_cookies_need_https(jar: Seq<CookieView>, url: UrlView, i: int)
    requires
        0 <= i < cookie::matching(jar, url).len(),
        cookie::matching(jar, url)[i].secure,
    ensures
        url.scheme == "https"@,
{
    jar.lemma_filter_pred(|c: CookieView| cookie::goes_to(c, url), i);
}

/// A cookie goes out only to the host that it is for, and only for paths
/// that it is for.
pub proof fn law_cookies_stay_in_their_scope(jar: Seq<CookieView>, url: UrlView, i: int)
    requires
        0 <= i < cookie::matching(jar, url).len(),
    ensures
        cookie::for_host(cookie::matching(jar, url)[i], url.host),
        cookie::for_path(cookie::matching(jar, url)[i], url.path),
{
    jar.lemma_filter_pred(|c: CookieView| cookie::goes_to(c, url), i);
}

/// A response can set cookies for its own host only, or for a domain that
/// the host lies in.
pub proof fn law_cookies_are_for_their_setter(raw: Seq<char>, url: UrlView, now: i128)
    ensures
        cookie::parsed(raw, url, now) matches Some(c) ==> cookie::for_host(c, url.host),
{
}

/// An expired cookie never goes out.
pub proof fn law_expired_cookies_are_dropped(jar: Seq<CookieView>, now: i128, i: int)
    requires
        0 <= i < cookie::fresh(jar, now).len(),
    ensures
        !cookie::expired(cookie::fresh(jar, now)[i], now),
{
    jar.lemma_filter_pred(|c: CookieView| !cookie::expired(c, now), i);
}

proof fn lemma_filter_distinct(jar: Seq<CookieView>, keep: spec_fn(CookieView) -> bool)
    requires
        cookie::all_distinct(jar),
    ensures
        cookie::all_distinct(jar.filter(keep)),
        forall|i: int|
            0 <= i < jar.filter(keep).len() ==> jar.contains(#[trigger] jar.filter(keep)[i]),
    decreases jar.len(),
{
    reveal(Seq::filter);
    if jar.len() > 0 {
        let front = jar.drop_last();
        lemma_filter_distinct(front, keep);
        let kept = front.filter(keep);
        let all = jar.filter(keep);
        assert forall|i: int| 0 <= i < kept.len() implies jar.contains(#[trigger] kept[i]) by {
            assert(front.contains(kept[i]));
            let m = choose|m: int| 0 <= m < front.len() && front[m] == kept[i];
            assert(jar[m] == kept[i]);
        }
        assert(jar.contains(jar.last())) by {
            assert(jar[jar.len() - 1] == jar.last());
        }
        if keep(jar.last()) {
            assert forall|i: int, j: int| 0 <= i < j < all.len() implies !cookie::same_cookie(
                all[i],
                all[j],
            ) by {
                assert(all[i] == kept[i]);
                if j < kept.len() {
                    assert(all[j] == kept[j]);
                } else {
                    assert(front.contains(kept[i]));
                    let m = choose|m: int| 0 <= m < front.len() && front[m] == kept[i];
                    assert(jar[m] == kept[i]);
                    assert(jar[jar.len() - 1] == all[j]);
                }
            }
        }
    }
}

proof fn lemma_stored_one_distinct(
    jar: Seq<CookieView>,
    url: UrlView,
    raw: Seq<char>,
    now: i128,
)
    requires
        cookie::all_distinct(jar),
    ensures
        cookie::all_distinct(cookie::stored_one(jar, url, raw, now)),
{
    if let Some(c) = cookie::parsed(raw, url, now) {
        let keep = |k: CookieView| !cookie::same_cookie(k, c);
        lemma_filter_distinct(jar, keep);
        let kept = cookie::without_same(jar, c);
        let more = kept.push(c);
        assert forall|i: int, j: int| 0 <= i < j < more.len() implies !cookie::same_cookie(
            more[i],
            more[j],
        ) by {
            assert(more[i] == kept[i]);
            if j < kept.len() {
                assert(more[j] == kept[j]);
            } else {
                jar.lemma_filter_pred(keep, i);
            }
        }
    }
}

/// A jar never holds two cookies with the same name, domain and path.
pub proof fn law_stored_cookies_stay_distinct(
    jar: Seq<CookieView>,
    url: UrlView,
    raws: Seq<Seq<char>>,
    now: i128,
)
    requires
        cookie::all_distinct(jar),
    ensures
        cookie::all_distinct(cookie::stored(jar, url, raws, now)),
    decreases raws.len(),
{
    if raws.len() > 0 {
        law_stored_cookies_stay_distinct(jar, url, raws.drop_last(), now);
        lemma_stored_one_distinct(
            cookie::stored(jar, url, raws.drop_last(), now),
            url,
            raws.last(),
            now,
        );
    }
}

/// Dropping expired cookies keeps the jar distinct.
pub proof fn law_fresh_cookies_stay_distinct(jar: Seq<CookieView>, now: i128)
    requires
        cookie::all_distinct(jar),
    ensures
        cookie::all_distinct(cookie::fresh(jar, now)),
{
    lemma_filter_distinct(jar, |c: CookieView| !cookie::expired(c, now));
}

/// A cookie that a response has set goes out with every request that it is
/// for, until it expires.
pub proof fn law_stored_cookie_goes_out(
    jar: Seq<CookieView>,
    url: UrlView,
    raw: Seq<char>,
    set_at: i128,
    request: UrlView,
    sent_at: i128,
)
    requires
        cookie::parsed(raw, url, set_at) is Some,
        !cookie::expired(cookie::parsed(raw, url, set_at)->0, set_at),
        !cookie::expired(cookie::parsed(raw, url, set_at)->0, sent_at),
        cookie::goes_to(cookie::parsed(raw, url, set_at)->0, request),
    ensures
        cookie::matching(
            cookie::fresh(cookie::stored_one(jar, url, raw, set_at), sent_at),
            request,
        ).contains(cookie::parsed(raw, url, set_at)->0),
{
    let c = cookie::parsed(raw, url, set_at)->0;
    let after = cookie::stored_one(jar, url, raw, set_at);
    let p = |k: CookieView| !cookie::expired(k, sent_at);
    let q = |k: CookieView| cookie::goes_to(k, request);
    assert(after[after.len() - 1] == c);
    after.lemma_filter_contains(p, after.len() - 1);
    let live = cookie::fresh(after, sent_at);
    assert(live.contains(c));
    let m = choose|m: int| 0 <= m < live.len() && live[m] == c;
    live.lemma_filter_contains(q, m);
}

/// Setting a cookie again replaces its value: what went out under its name,
/// domain and path before does so no more.
pub proof fn law_set_cookie_replaces_its_predecessors(
    jar: Seq<CookieView>,
    url: UrlView,
    raw: Seq<char>,
    now: i128,
    k: CookieView,
)
    requires
        cookie::parsed(raw, url, now) is Some,
        cookie::same_cookie(k, cookie::parsed(raw, url, now)->0),
        cookie::stored_one(jar, url, raw, now).contains(k),
    ensures
        k == cookie::parsed(raw, url, now)->0,
        !cookie::expired(k, now),
{
    let c = cookie::parsed(raw, url, now)->0;
    let kept = cookie::without_same(jar, c);
    let after = cookie::stored_one(jar, url, raw, now);
    let keep = |o: CookieView| !cookie::same_cookie(o, c);
    let m = choose|m: int| 0 <= m < after.len() && after[m] == k;
    if m < kept.len() {
        assert(after[m] == kept[m]);
        jar.lemma_filter_pred(keep, m);
    }
}

proof fn lemma_filter_push<T>(s: Seq<T>, x: T, p: spec_fn(T) -> bool)
    ensures
        s.push(x).filter(p) == if p(x) {
            s.filter(p).push(x)
        } else {
            s.filter(p)
        },
{
    reveal(Seq::filter);
    assert(s.push(x).drop_last() =~= s);
}

/// Filtering first by what is always kept anyway changes nothing.
proof fn lemma_filter_under<T>(s: Seq<T>, keep: spec_fn(T) -> bool, p: spec_fn(T) -> bool)
    requires
        forall|k: T| #[trigger] p(k) ==> keep(k),
    ensures
        s.filter(keep).filter(p) == s.filter(p),
    decreases s.len(),
{
    reveal(Seq::filter);
    if s.len() > 0 {
        lemma_filter_under(s.drop_last(), keep, p);
        lemma_filter_push(s.drop_last().filter(keep), s.last(), p);
    }
}

/// Filtering first by what excludes the rest leaves nothing.
proof fn lemma_filter_apart<T>(s: Seq<T>, keep: spec_fn(T) -> bool, p: spec_fn(T) -> bool)
    requires
        forall|k: T| #[trigger] p(k) ==> !keep(k),
    ensures
        s.filter(keep).filter(p) == Seq::<T>::empty(),
    decreases s.len(),
{
    reveal(Seq::filter);
    if s.len() > 0 {
        lemma_filter_apart(s.drop_last(), keep, p);
        lemma_filter_push(s.drop_last().filter(keep), s.last(), p);
    }
}

/// Whether a `Set-Cookie` header sets a cookie with the name, domain and path
/// of `k`.
pub open spec fn sets(raw: Seq<char>, url: UrlView, now: i128, k: CookieView) -> bool {
    cookie::parsed(raw, url, now) matches Some(c) && cookie::same_cookie(k, c)
}

/// Whether any of the `Set-Cookie` headers does.
pub open spec fn any_sets(raws: Seq<Seq<char>>, url: UrlView, now: i128, k: CookieView) -> bool {
    exists|j: int| 0 <= j < raws.len() && sets(#[trigger] raws[j], url, now, k)
}

/// Of several `Set-Cookie` headers for one name, domain and path, the last one
/// that can be read wins: its cookie is the only one that the jar then holds
/// there, and none is held if it has expired.
pub proof fn law_last_set_cookie_wins(
    jar: Seq<CookieView>,
    url: UrlView,
    raws: Seq<Seq<char>>,
    now: i128,
    i: int,
)
    requires
        0 <= i < raws.len(),
        cookie::parsed(raws[i], url, now) is Some,
        forall|j: int|
            i < j < raws.len() ==> !sets(
                #[trigger] raws[j],
                url,
                now,
                cookie::parsed(raws[i], url, now)->0,
            ),
    ensures
        ({
            let c = cookie::parsed(raws[i], url, now)->0;
            cookie::stored(jar, url, raws, now).filter(|k: CookieView| cookie::same_cookie(k, c))
                == if cookie::expired(c, now) {
                Seq::<CookieView>::empty()
            } else {
                seq![c]
            }
        }),
    decreases raws.len(),
{
    let c = cookie::parsed(raws[i], url, now)->0;
    let p = |k: CookieView| cookie::same_cookie(k, c);
    let earlier = raws.drop_last();
    let before = cookie::stored(jar, url, earlier, now);
    if i == raws.len() - 1 {
        let keep = |k: CookieView| !cookie::same_cookie(k, c);
        lemma_filter_apart(before, keep, p);
        lemma_filter_push(cookie::without_same(before, c), c, p);
        assert(Seq::<CookieView>::empty().push(c) =~= seq![c]);
    } else {
        assert(earlier[i] == raws[i]);
        assert forall|j: int| i < j < earlier.len() implies !sets(
            #[trigger] earlier[j],
            url,
            now,
            c,
        ) by {
            assert(earlier[j] == raws[j]);
        }
        law_last_set_cookie_wins(jar, url, earlier, now, i);
        assert(!sets(raws[raws.len() - 1], url, now, c));
        if let Some(d) = cookie::parsed(raws.last(), url, now) {
            let keep = |k: CookieView| !cookie::same_cookie(k, d);
            lemma_filter_under(before, keep, p);
            lemma_filter_push(cookie::without_same(before, d), d, p);
        }
    }
}

/// Cookies that no `Set-Cookie` header sets anew stay as they are and in their
/// order, and no others join them.
pub proof fn law_other_cookies_stay(
    jar: Seq<CookieView>,
    url: UrlView,
    raws: Seq<Seq<char>>,
    now: i128,
)
    ensures
        cookie::stored(jar, url, raws, now).filter(
            |k: CookieView| !any_sets(raws, url, now, k),
        ) == jar.filter(|k: CookieView| !any_sets(raws, url, now, k)),
    decreases raws.len(),
{
    if raws.len() > 0 {
        let earlier = raws.drop_last();
        let before = cookie::stored(jar, url, earlier, now);
        let p = |k: CookieView| !any_sets(raws, url, now, k);
        let q = |k: CookieView| !any_sets(earlier, url, now, k);
        law_other_cookies_stay(jar, url, earlier, now);
        assert forall|k: CookieView| #[trigger] p(k) implies q(k) by {
            if any_sets(earlier, url, now, k) {
                let j = choose|j: int|
                    0 <= j < earlier.len() && sets(#[trigger] earlier[j], url, now, k);
                assert(sets(raws[j], url, now, k));
            }
        }
        lemma_filter_under(before, q, p);
        lemma_filter_under(jar, q, p);
        if let Some(d) = cookie::parsed(raws.last(), url, now) {
            let keep = |k: CookieView| !cookie::same_cookie(k, d);
            assert forall|k: CookieView| #[trigger] p(k) implies keep(k) by {
                if cookie::same_cookie(k, d) {
                    assert(sets(raws[raws.len() - 1], url, now, k));
                }
            }
            assert(sets(raws[raws.len() - 1], url, now, d));
            assert(!p(d));
            lemma_filter_under(before, keep, p);
            lemma_filter_push(cookie::without_same(before, d), d, p);
        }
    }
}

/// `Set-Cookie` headers that cannot be read have no effect.
pub proof fn law_unreadable_set_cookies_have_no_effect(
    jar: Seq<CookieView>,
    url: UrlView,
    raws: Seq<Seq<char>>,
    now: i128,
)
    ensures
        cookie::stored(jar, url, raws, now) == cookie::stored(
            jar,
            url,
            raws.filter(|r: Seq<char>| cookie::parsed(r, url, now) is Some),
            now,
        ),
    decreases raws.len(),
{
    reveal(Seq::filter);
    if raws.len() > 0 {
        let readable = |r: Seq<char>| cookie::parsed(r, url, now) is Some;
        let earlier = raws.drop_last();
        law_unreadable_set_cookies_have_no_effect(jar, url, earlier, now);
        if readable(raws.last()) {
            let kept = earlier.filter(readable);
            assert(raws.filter(readable) == kept.push(raws.last()));
            assert(kept.push(raws.last()).drop_last() =~= kept);
        }
    }
}

/// Cookies with longer paths come first.
pub proof fn law_longer_paths_come_first(cookies: Seq<CookieView>)
    ensures
        cookie::ranked(cookies).len() == cookies.len(),
        forall|i: int, j: int|
            0 <= i < j < cookie::ranked(cookies).len() ==> cookie::rank(
                cookie::ranked(cookies)[i],
            ) >= cookie::rank(cookie::ranked(cookies)[j]),
    decreases cookies.len(),
{
    if cookies.len() > 0 {
        let front = cookie::ranked(cookies.drop_last());
        let c = cookies.last();
        let p = cookie::rank_position(front, c);
        law_longer_paths_come_first(cookies.drop_last());
        cookie::lemma_rank_position(front, c);
        let all = cookie::ranked(cookies);
        assert forall|i: int, j: int| 0 <= i < j < all.len() implies cookie::rank(all[i])
            >= cookie::rank(all[j]) by {
            let a = if i < p {
                i
            } else {
                i - 1
            };
            let b = if j < p {
                j
            } else {
                j - 1
            };
            if i != p {
                assert(all[i] == front[a]);
            }
            if j != p {
                assert(all[j] == front[b]);
            }
            if i == p && p < front.len() {
                assert(cookie::rank(front[p]) < cookie::rank(c));
                if p < b {
                    assert(cookie::rank(front[p]) >= cookie::rank(front[b]));
                }
            }
        }
    }
}

proof fn lemma_filter_none(s: Seq<CookieView>, f: spec_fn(CookieView) -> bool)
    requires
        forall|i: int| 0 <= i < s.len() ==> !f(#[trigger] s[i]),
    ensures
        s.filter(f) == Seq::<CookieView>::empty(),
    decreases s.len(),
{
    reveal(Seq::filter);
    if s.len() > 0 {
        let front = s.drop_last();
        assert forall|i: int| 0 <= i < front.len() implies !f(#[trigger] front[i]) by {
            assert(front[i] == s[i]);
        }
        lemma_filter_none(front, f);
        assert(!f(s[s.len() - 1]));
    }
}

/// Ranking loses no cookie and adds none, and cookies with paths of one
/// length keep their order.
pub proof fn law_ranking_is_stable(cookies: Seq<CookieView>, length: nat)
    ensures
        cookie::ranked(cookies).filter(|c: CookieView| cookie::rank(c) == length)
            == cookies.filter(|c: CookieView| cookie::rank(c) == length),
    decreases cookies.len(),
{
    let f = |c: CookieView| cookie::rank(c) == length;
    reveal(Seq::filter);
    if cookies.len() > 0 {
        let front = cookie::ranked(cookies.drop_last());
        let c = cookies.last();
        let p = cookie::rank_position(front, c);
        law_ranking_is_stable(cookies.drop_last(), length);
        law_longer_paths_come_first(cookies.drop_last());
        cookie::lemma_rank_position(front, c);
        let (a, b) = (front.take(p), front.skip(p));
        assert(front =~= a + b);
        assert(front.insert(p, c) =~= a.push(c) + b);
        Seq::filter_distributes_over_add(a, b, f);
        Seq::filter_distributes_over_add(a.push(c), b, f);
        assert(a.push(c).drop_last() =~= a);
        if f(c) {
            assert forall|i: int| 0 <= i < b.len() implies !f(#[trigger] b[i]) by {
                assert(b[i] == front[p + i]);
                if i > 0 {
                    assert(cookie::rank(front[p]) >= cookie::rank(front[p + i]));
                }
            }
            lemma_filter_none(b, f);
            assert(a.filter(f).push(c) + b.filter(f) =~= (a.filter(f) + b.filter(f)).push(c));
        }
    }
}

/// Which paths a cookie is for: its own, every one that goes on from it with a
/// `/`, and, where its path ends in `/`, every one that goes on from it at
/// all.
pub proof fn law_paths_below_get_the_cookie(c: CookieView, x: Seq<char>)
    ensures
        cookie::for_path(c, c.path),
        cookie::for_path(c, c.path + seq!['/'] + x),
        c.path.len() > 0 && c.path.last() == '/' ==> cookie::for_path(c, c.path + x),
{
    assert((c.path + seq!['/'] + x).take(c.path.len() as int) == c.path);
    assert((c.path + seq!['/'] + x)[c.path.len() as int] == '/');
    assert((c.path + x).take(c.path.len() as int) == c.path);
}

/// A cookie is for no path but its own and those that go on from it, after a
/// `/` that ends it or with a `/` of their own.
pub proof fn law_other_paths_do_not_get_the_cookie(c: CookieView, path: Seq<char>)
    requires
        cookie::for_path(c, path),
        path != c.path,
    ensures
        exists|x: Seq<char>|
            #![trigger c.path + x]
            path == c.path + x && x.len() > 0 && (x[0] == '/' || (c.path.len() > 0
                && c.path[c.path.len() - 1] == '/')),
{
    let x = path.skip(c.path.len() as int);
    assert(path == c.path + x) by {
        assert(path.take(c.path.len() as int) == c.path);
    }
    if x.len() == 0 {
        assert(path == c.path);
    }
}

/// A cookie for one host goes to that host alone, in whatever case it is
/// written.
pub proof fn law_host_only_cookies_stay_with_their_host(c: CookieView, host: Seq<char>)
    requires
        c.host_only,
        text::lowered(c.domain) == c.domain,
    ensures
        cookie::for_host(c, host) <==> text::same_ignoring_case(host, c.domain),
{
}

/// A cookie for a domain goes to the domain itself and to every name below it,
/// in whatever case they are written.
pub proof fn law_names_below_get_the_cookie(c: CookieView, x: Seq<char>, host: Seq<char>)
    requires
        !c.host_only,
        text::lowered(host) == c.domain || text::lowered(host) == x + seq!['.'] + c.domain,
    ensures
        cookie::for_host(c, host),
{
    let below = x + seq!['.'] + c.domain;
    assert(below.skip(x.len() as int) == seq!['.'] + c.domain);
}

/// A cookie for a domain goes nowhere else.
pub proof fn law_other_hosts_do_not_get_the_cookie(c: CookieView, host: Seq<char>)
    requires
        cookie::for_host(c, host),
        text::lowered(host) != c.domain,
    ensures
        !c.host_only,
        exists|x: Seq<char>| text::lowered(host) == #[trigger] (x + seq!['.']) + c.domain,
{
    let name = text::lowered(host);
    let suffix = seq!['.'] + c.domain;
    let x = name.take(name.len() - suffix.len());
    assert(name.skip(name.len() - suffix.len()) == suffix);
    assert(name == x + suffix);
    assert(x + suffix == (x + seq!['.']) + c.domain);
}

/// Every stored cookie for the host and the path goes out, a `Secure` one over
/// `https` alone.
pub proof fn law_matching_cookies_go_out(jar: Seq<CookieView>, url: UrlView, c: CookieView)
    ensures
        cookie::matching(jar, url).contains(c) <==> jar.contains(c) && cookie::for_host(c, url.host)
            && cookie::for_path(c, url.path) && (!c.secure || url.scheme == "https"@),
{
    let goes = |k: CookieView| cookie::goes_to(k, url);
    if jar.contains(c) && goes(c) {
        let i = choose|i: int| 0 <= i < jar.len() && jar[i] == c;
        jar.lemma_filter_contains(goes, i);
    }
    if cookie::matching(jar, url).contains(c) {
        let i = choose|i: int|
            0 <= i < cookie::matching(jar, url).len() && cookie::matching(jar, url)[i] == c;
        jar.lemma_filter_pred(goes, i);
        jar.lemma_filter_contains_rev(goes, c);
    }
}

/// A `Cookie` header is the pairs `name=value` of the cookies that go out,
/// separated by a semicolon and a space; where none goes out there is no
/// header.
pub proof fn law_cookie_header_lists_the_pairs(jar: Seq<CookieView>, url: UrlView)
    ensures
        match cookie::header_text(jar, url) {
            None => cookie::matching(jar, url).len() == 0,
            Some(t) => {
                let out = cookie::ranked(cookie::matching(jar, url));
                &&& out.len() == 1 ==> t == out[0].name + seq!['='] + out[0].value
                &&& out.len() > 1 ==> t == out[0].name + seq!['='] + out[0].value + seq![';', ' ']
                    + text::joined(
                    out.skip(1).map_values(|c: CookieView| c.name + seq!['='] + c.value),
                    seq![';', ' '],
                )
            },
        },
{
    reveal_strlit("=");
    reveal_strlit("; ");
    assert("="@ =~= seq!['=']);
    assert("; "@ =~= seq![';', ' ']);
    let cookies = cookie::matching(jar, url);
    let out = cookie::ranked(cookies);
    let pair = |c: CookieView| cookie::pair_text(c);
    let spelled = |c: CookieView| c.name + seq!['='] + c.value;
    let pairs = out.map_values(pair);
    if pairs.len() > 1 {
        text_laws::lemma_joined_first(pairs, "; "@);
        assert(pairs.skip(1) =~= out.skip(1).map_values(spelled));
    }
}

/// The `Set-Cookie` header of a cookie: `name=value`, with white space around
/// both, then its attributes, each after a semicolon.
pub open spec fn set_cookie(
    name: Seq<char>,
    value: Seq<char>,
    pad: Seq<char>,
    attributes: Seq<Seq<char>>,
) -> Seq<char> {
    text::joined(
        seq![(pad + name + pad) + seq!['='] + (pad + value + pad)] + attributes,
        seq![';'],
    )
}

/// What a `Set-Cookie` header says is what the cookie is: its name, its value
/// and its attributes. A cookie without `Domain` is for the host that set it
/// alone, one without `Path` for the directory of the request. A header that
/// names a domain which the host does not lie in sets nothing.
pub proof fn law_set_cookie_is_read(
    name: Seq<char>,
    value: Seq<char>,
    pad: Seq<char>,
    attributes: Seq<Seq<char>>,
    url: UrlView,
    now: i128,
)
    requires
        text_laws::is_blank(pad),
        name.len() > 0,
        text_laws::is_trim(name),
        text_laws::is_trim(value),
        text_laws::lacks(name, '='),
        text_laws::lacks(name, ';'),
        text_laws::lacks(value, ';'),
        forall|i: int|
            0 <= i < attributes.len() ==> text_laws::lacks(#[trigger] attributes[i], ';'),
    ensures
        ({
            let a = cookie::attributes_of(attributes);
            match cookie::parsed(set_cookie(name, value, pad, attributes), url, now) {
                None => a.domain matches Some(d) && !text::within_domain(
                    text::lowered(url.host),
                    d,
                ),
                Some(c) => {
                    &&& c.name == name
                    &&& c.value == value
                    &&& match a.domain {
                        Some(d) => c.domain == d && !c.host_only && text::within_domain(
                            text::lowered(url.host),
                            d,
                        ),
                        None => c.domain == text::lowered(url.host) && c.host_only,
                    }
                    &&& match a.path {
                        Some(p) => c.path == p,
                        None => c.path == cookie::directory(url.path),
                    }
                    &&& c.secure == a.secure
                    &&& c.http_only == a.http_only
                    &&& c.expires == cookie::expiry(a, now)
                },
            }
        }),
{
    let (left, right) = (pad + name + pad, pad + value + pad);
    let first = left + seq!['='] + right;
    let pieces = seq![first] + attributes;
    lemma_padded_lacks(pad, name, ';');
    lemma_padded_lacks(pad, value, ';');
    lemma_padded_lacks(pad, name, '=');
    assert(text_laws::lacks(first, ';')) by {
        assert forall|i: int| 0 <= i < first.len() implies #[trigger] first[i] != ';' by {
            if i < left.len() {
                assert(first[i] == left[i]);
            } else if i > left.len() {
                assert(first[i] == right[i - left.len() - 1]);
            }
        }
    }
    assert forall|i: int| 0 <= i < pieces.len() implies text_laws::lacks(
        #[trigger] pieces[i],
        ';',
    ) by {
        if i > 0 {
            assert(pieces[i] == attributes[i - 1]);
        }
    }
    text_laws::law_splitting_undoes_joining(pieces, ';');
    assert(pieces.skip(1) == attributes);
    text_laws::law_separator_is_found(left, '=', right);
    text_laws::law_trimming_takes_what_is_around(pad, name, pad);
    text_laws::law_trimming_takes_what_is_around(pad, value, pad);
}

proof fn lemma_padded_lacks(pad: Seq<char>, s: Seq<char>, c: char)
    requires
        text_laws::is_blank(pad),
        text_laws::lacks(s, c),
        !text::is_space(c),
    ensures
        text_laws::lacks(pad + s + pad, c),
{
    let all = pad + s + pad;
    assert forall|i: int| 0 <= i < all.len() implies #[trigger] all[i] != c by {
        if i < pad.len() {
            assert(text::is_space(pad[i]));
        } else if i < pad.len() + s.len() {
            assert(all[i] == s[i - pad.len()]);
        } else {
            assert(text::is_space(pad[i - pad.len() - s.len()]));
        }
    }
}

/// A `Set-Cookie` header without `=` in its first part, or with nothing before
/// it, sets no cookie.
pub proof fn law_malformed_set_cookie_is_refused(
    first: Seq<char>,
    pad: Seq<char>,
    value: Seq<char>,
    attributes: Seq<Seq<char>>,
    url: UrlView,
    now: i128,
)
    requires
        text_laws::lacks(first, '='),
        text_laws::lacks(first, ';'),
        text_laws::is_blank(pad),
        text_laws::lacks(value, ';'),
        forall|i: int|
            0 <= i < attributes.len() ==> text_laws::lacks(#[trigger] attributes[i], ';'),
    ensures
        cookie::parsed(text::joined(seq![first] + attributes, seq![';']), url, now) is None,
        cookie::parsed(
            text::joined(seq![pad + seq!['='] + value] + attributes, seq![';']),
            url,
            now,
        ) is None,
{
    let none = Seq::<char>::empty();
    let nameless = pad + seq!['='] + value;
    lemma_padded_lacks(pad, none, '=');
    lemma_padded_lacks(pad, none, ';');
    assert(forall|i: int| 0 <= i < pad.len() ==> #[trigger] pad[i] != '=' && pad[i] != ';') by {
        assert forall|i: int| 0 <= i < pad.len() implies #[trigger] pad[i] != '=' && pad[i]
            != ';' by {
            assert(text::is_space(pad[i]));
        }
    }
    assert(text_laws::lacks(nameless, ';')) by {
        assert forall|i: int| 0 <= i < nameless.len() implies #[trigger] nameless[i] != ';' by {
            if i < pad.len() {
                assert(nameless[i] == pad[i]);
            } else if i > pad.len() {
                assert(nameless[i] == value[i - pad.len() - 1]);
            }
        }
    }
    let one = seq![first] + attributes;
    let two = seq![nameless] + attributes;
    assert forall|i: int| 0 <= i < one.len() implies text_laws::lacks(#[trigger] one[i], ';')
        && text_laws::lacks(two[i], ';') by {
        if i > 0 {
            assert(one[i] == attributes[i - 1] && two[i] == attributes[i - 1]);
        }
    }
    assert forall|i: int| 0 <= i < two.len() implies text_laws::lacks(#[trigger] two[i], ';') by {
        assert(text_laws::lacks(one[i], ';'));
    }
    text_laws::law_splitting_undoes_joining(one, ';');
    text_laws::law_splitting_undoes_joining(two, ';');
    text_laws::law_missing_separator_is_not_found(first, '=');
    text_laws::law_separator_is_found(pad, '=', value);
    text_laws::law_trimming_takes_what_is_around(pad, none, none);
    assert(pad + none + none =~= pad);
}

/// Storing a cookie takes away those with its name, its domain and its path,
/// and no other: one that differs in any of the three stays.
pub proof fn law_cookies_that_differ_stay(
    jar: Seq<CookieView>,
    url: UrlView,
    raw: Seq<char>,
    now: i128,
    k: CookieView,
)
    requires
        cookie::parsed(raw, url, now) is Some,
        jar.contains(k),
    ensures
        ({
            let c = cookie::parsed(raw, url, now)->0;
            let after = cookie::stored_one(jar, url, raw, now);
            &&& k.name != c.name || k.domain != c.domain || k.path != c.path ==> after.contains(k)
            &&& k.name == c.name && k.domain == c.domain && k.path == c.path && k != c
                ==> !after.contains(k)
            &&& after.contains(c) <==> !cookie::expired(c, now)
        }),
{
    let c = cookie::parsed(raw, url, now)->0;
    let keep = |o: CookieView| !cookie::same_cookie(o, c);
    let rest = cookie::without_same(jar, c);
    let after = cookie::stored_one(jar, url, raw, now);
    if keep(k) {
        let i = choose|i: int| 0 <= i < jar.len() && jar[i] == k;
        jar.lemma_filter_contains(keep, i);
        let j = choose|j: int| 0 <= j < rest.len() && rest[j] == k;
        assert(after[j] == k);
    }
    if rest.contains(c) {
        let j = choose|j: int| 0 <= j < rest.len() && rest[j] == c;
        jar.lemma_filter_pred(keep, j);
    }
    if after.contains(k) && !keep(k) {
        let j = choose|j: int| 0 <= j < after.len() && after[j] == k;
        if j < rest.len() {
            assert(rest[j] == k);
            jar.lemma_filter_pred(keep, j);
        }
    }
    if !cookie::expired(c, now) {
        assert(after[after.len() - 1] == c);
    }
}

/// An attribute with a value is read whatever the case of its name and the
/// white space around it, and changes nothing but what it is about: `Path` a
/// path that starts with `/`, `Domain` a domain in lower case without the dots
/// before it, `Max-Age` a number, `Expires` a date. Other attributes change
/// nothing.
#[verifier::rlimit(40)]
#[verifier::spinoff_prover]
pub proof fn law_attribute_is_read(
    attributes: Seq<Seq<char>>,
    before: Seq<char>,
    key: Seq<char>,
    value: Seq<char>,
    after: Seq<char>,
    dots: Seq<char>,
    domain: Seq<char>,
)
    requires
        text_laws::is_blank(before),
        text_laws::is_blank(after),
        key.len() > 0,
        text_laws::is_trim(key),
        text_laws::lacks(key, '='),
        value.len() > 0,
        text_laws::is_trim(value),
        forall|i: int| 0 <= i < dots.len() ==> #[trigger] dots[i] == '.',
        domain.len() > 0 ==> domain[0] != '.',
    ensures
        ({
            let a = cookie::attributes_of(attributes);
            let b = cookie::attributes_of(
                attributes.push(before + (key + seq!['='] + value) + after),
            );
            &&& text::same_ignoring_case(key, "Path"@) ==> b == (cookie::Attributes {
                path: if value[0] == '/' {
                    Some(value)
                } else {
                    None
                },
                ..a
            })
            &&& text::same_ignoring_case(key, "Domain"@) && value == dots + domain ==> b == (
            cookie::Attributes {
                domain: if domain.len() > 0 {
                    Some(text::lowered(domain))
                } else {
                    None
                },
                ..a
            })
            &&& text::same_ignoring_case(key, "Max-Age"@) ==> b == (cookie::Attributes {
                max_age: text::signed_value(value),
                ..a
            })
            &&& text::same_ignoring_case(key, "Expires"@) ==> b == (cookie::Attributes {
                expires: date::http_date(value),
                ..a
            })
            &&& text::same_ignoring_case(key, "Secure"@) ==> b == (cookie::Attributes {
                secure: true,
                ..a
            })
            &&& text::same_ignoring_case(key, "HttpOnly"@) ==> b == (cookie::Attributes {
                http_only: true,
                ..a
            })
            &&& !text::same_ignoring_case(key, "Path"@) && !text::same_ignoring_case(
                key,
                "Domain"@,
            ) && !text::same_ignoring_case(key, "Max-Age"@) && !text::same_ignoring_case(
                key,
                "Expires"@,
            ) && !text::same_ignoring_case(key, "Secure"@) && !text::same_ignoring_case(
                key,
                "HttpOnly"@,
            ) ==> b == a
        }),
{
    let attribute = key + seq!['='] + value;
    let more = attributes.push(before + attribute + after);
    assert(more.drop_last() == attributes);
    assert(attribute[0] == key[0]);
    assert(attribute.last() == value.last());
    text_laws::law_trimming_takes_what_is_around(before, attribute, after);
    text_laws::law_separator_is_found(key, '=', value);
    let none = Seq::<char>::empty();
    text_laws::law_trimming_takes_what_is_around(none, key, none);
    text_laws::law_trimming_takes_what_is_around(none, value, none);
    assert(none + key + none == key);
    assert(none + value + none == value);
    lemma_attribute_names();
    text_laws::law_leading_dots_are_taken_away(dots, domain);
}

/// An attribute without a value is read in the same way: `Secure` and
/// `HttpOnly` need none, and the others say nothing without one, also where an
/// earlier one did.
#[verifier::rlimit(40)]
#[verifier::spinoff_prover]
pub proof fn law_flag_is_read(
    attributes: Seq<Seq<char>>,
    before: Seq<char>,
    key: Seq<char>,
    after: Seq<char>,
)
    requires
        text_laws::is_blank(before),
        text_laws::is_blank(after),
        key.len() > 0,
        text_laws::is_trim(key),
        text_laws::lacks(key, '='),
    ensures
        ({
            let a = cookie::attributes_of(attributes);
            let b = cookie::attributes_of(attributes.push(before + key + after));
            &&& text::same_ignoring_case(key, "Secure"@) ==> b == (cookie::Attributes {
                secure: true,
                ..a
            })
            &&& text::same_ignoring_case(key, "HttpOnly"@) ==> b == (cookie::Attributes {
                http_only: true,
                ..a
            })
            &&& text::same_ignoring_case(key, "Path"@) ==> b == (cookie::Attributes {
                path: None,
                ..a
            })
            &&& text::same_ignoring_case(key, "Domain"@) ==> b == (cookie::Attributes {
                domain: None,
                ..a
            })
            &&& text::same_ignoring_case(key, "Max-Age"@) ==> b == (cookie::Attributes {
                max_age: None,
                ..a
            })
            &&& text::same_ignoring_case(key, "Expires"@) ==> b == (cookie::Attributes {
                expires: None,
                ..a
            })
            &&& cookie::attributes_of(Seq::empty()) == (cookie::Attributes {
                domain: None,
                path: None,
                max_age: None,
                expires: None,
                secure: false,
                http_only: false,
            })
        }),
{
    let more = attributes.push(before + key + after);
    assert(more.drop_last() == attributes);
    text_laws::law_trimming_takes_what_is_around(before, key, after);
    text_laws::law_missing_separator_is_not_found(key, '=');
    lemma_attribute_names();
}

proof fn lemma_attribute_names()
    ensures
        text::lowered("Path"@) == "path"@,
        text::lowered("Domain"@) == "domain"@,
        text::lowered("Max-Age"@) == "max-age"@,
        text::lowered("Expires"@) == "expires"@,
        text::lowered("Secure"@) == "secure"@,
        text::lowered("HttpOnly"@) == "httponly"@,
        "path"@.len() == 4,
        "domain"@.len() == 6 && "domain"@[0] == 'd',
        "max-age"@.len() == 7 && "max-age"@[0] == 'm',
        "expires"@.len() == 7 && "expires"@[0] == 'e',
        "secure"@.len() == 6 && "secure"@[0] == 's',
        "httponly"@.len() == 8 && "httponly"@[0] == 'h',
{
    reveal_strlit("Path");
    reveal_strlit("path");
    reveal_strlit("Domain");
    reveal_strlit("domain");
    reveal_strlit("Max-Age");
    reveal_strlit("max-age");
    reveal_strlit("Expires");
    reveal_strlit("expires");
    reveal_strlit("Secure");
    reveal_strlit("secure");
    reveal_strlit("HttpOnly");
    reveal_strlit("httponly");
    assert(text::lowered("Path"@) =~= "path"@);
    assert(text::lowered("Domain"@) =~= "domain"@);
    assert(text::lowered("Max-Age"@) =~= "max-age"@);
    assert(text::lowered("Expires"@) =~= "expires"@);
    assert(text::lowered("Secure"@) =~= "secure"@);
    assert(text::lowered("HttpOnly"@) =~= "httponly"@);
}

/// How long a cookie lives. One with a positive `Max-Age` lives for so many
/// seconds, or to the end of time if that comes first, whatever its `Expires`
/// says; one whose `Max-Age` is not positive
/// has expired; one with `Expires` alone lives until that second; one with
/// neither lives on.
pub proof fn law_lifetime_of_a_cookie(
    a: cookie::Attributes,
    c: CookieView,
    now: i128,
    later: i128,
)
    requires
        c.expires == cookie::expiry(a, now),
        later >= 0,
        a.expires matches Some(secs) ==> secs * 1_000_000_000 <= i128::MAX,
    ensures
        match a.max_age {
            Some(secs) => if secs > 0 {
                cookie::expired(c, later) <==> later - now >= secs * 1_000_000_000 || later
                    == i128::MAX
            } else {
                cookie::expired(c, later)
            },
            None => match a.expires {
                Some(secs) => cookie::expired(c, later) <==> later >= secs * 1_000_000_000,
                None => !cookie::expired(c, later),
            },
        },
{
}

/// The directory of a path is what stands before its last `/`; of a path with
/// no other `/` than its first, it is `/`.
pub proof fn law_directory_of_a_path(front: Seq<char>, leaf: Seq<char>)
    requires
        text_laws::lacks(leaf, '/'),
    ensures
        cookie::directory(front + seq!['/'] + leaf) == if front.len() == 0 {
            seq!['/']
        } else {
            front
        },
{
    let path = front + seq!['/'] + leaf;
    assert forall|i: int| front.len() < i < path.len() implies path[i] != '/' by {
        assert(path[i] == leaf[i - front.len() - 1]);
    }
    text::lemma_last_position_unique(path, '/', front.len() as int);
    assert(path.take(front.len() as int) == front);
    reveal_strlit("/");
    assert("/"@ =~= seq!['/']);
}

/// In a `Cookie` header, a cookie whose path has more bytes never stands behind
/// one whose path has fewer.
pub proof fn law_order_in_the_header(cookies: Seq<CookieView>, i: int, j: int)
    requires
        0 <= i < cookies.len(),
        0 <= j < cookies.len(),
        vstd::utf8::encode_utf8(cookie::ranked(cookies)[i].path).len() > vstd::utf8::encode_utf8(
            cookie::ranked(cookies)[j].path,
        ).len(),
    ensures
        i < j,
{
    law_longer_paths_come_first(cookies);
    if j < i {
        assert(cookie::rank(cookie::ranked(cookies)[j]) >= cookie::rank(
            cookie::ranked(cookies)[i],
        ));
    }
}

} // verus!
