//! The text codec for the persisted inventory.
//!
//! A snapshot is stored as structured text in the shape of JSON: a list of
//! device objects, each with its named scalar fields, its three strings,
//! and its nested list of configuration objects.  The encoder always emits
//! the canonical form — fields in declaration order, no whitespace, numbers
//! without leading zeros, only `"` and `\` escaped in strings — and the
//! decoder accepts exactly that form, so a stored snapshot reads back to a
//! value equal to the one written.

use vstd::prelude::*;
use vstd::string::StringExecFns;
use vstd::string::StrSliceExecFns;
use crate::device::{Config, ConfigV, Dev, DevV, configs_view};
use crate::digits::{
    all_digits, append_dec, dec_rep, digit_char, digit_of, digit_val, fold_val, is_digit,
    lemma_dec_rep_injective, lemma_dec_rep_wf, lemma_digit_run_unique, lemma_fold_val_prefix,
};
use crate::diff::snap_view;
use crate::monitor::MonitorError;

verus! {

/// Relies on String::push: appends the one character at the end of the
/// string.
#[verifier::external_body]
fn push_char(out: &mut String, c: char)
    ensures
        final(out)@ == old(out)@.push(c),
{
    out.push(c);
}

/// The escape of one string character: `"` and `\` get a backslash in
/// front, every other character stands for itself.
pub open spec fn esc_char(c: char) -> Seq<char> {
    if c == '"' || c == '\\' {
        seq!['\\', c]
    } else {
        seq![c]
    }
}

/// The escaped text of a string, character by character.
pub open spec fn esc_str(s: Seq<char>) -> Seq<char>
    decreases s.len(),
{
    if s.len() == 0 {
        Seq::empty()
    } else {
        esc_char(s[0]) + esc_str(s.drop_first())
    }
}

/// The text of a boolean field.
pub open spec fn bool_rep(b: bool) -> Seq<char> {
    if b {
        seq!['t', 'r', 'u', 'e']
    } else {
        seq!['f', 'a', 'l', 's', 'e']
    }
}

/// The canonical text of one configuration record.
pub open spec fn enc_config(c: ConfigV) -> Seq<char> {
    "{\"config_num\":"@ + dec_rep(c.config_num as nat) + ",\"max_power\":"@ + dec_rep(
        c.max_power as nat,
    ) + ",\"internal_powered\":"@ + bool_rep(c.internal_powered) + ",\"remote_wakeup\":"@
        + bool_rep(c.remote_wakeup) + ",\"config_str\":\""@ + esc_str(c.config_str) + seq!['"']
        + "}"@
}

/// The canonical text of a configuration list, commas between entries,
/// brackets not included.
pub open spec fn enc_configs(cs: Seq<ConfigV>) -> Seq<char>
    decreases cs.len(),
{
    if cs.len() == 0 {
        Seq::empty()
    } else {
        enc_config(cs[0]) + enc_configs_rest(cs.drop_first())
    }
}

/// The canonical text of the configuration entries after the first, each
/// led by its comma.
pub open spec fn enc_configs_rest(cs: Seq<ConfigV>) -> Seq<char>
    decreases cs.len(),
{
    if cs.len() == 0 {
        Seq::empty()
    } else {
        seq![','] + enc_config(cs[0]) + enc_configs_rest(cs.drop_first())
    }
}

/// The canonical text of one device record.
pub open spec fn enc_dev(d: DevV) -> Seq<char> {
    "{\"product\":\""@ + esc_str(d.product) + seq!['"'] + ",\"manufacturer\":\""@ + esc_str(
        d.manufacturer,
    ) + seq!['"'] + ",\"serial_num\":\""@ + esc_str(d.serial_num) + seq!['"'] + ",\"bus_number\":"@
        + dec_rep(d.bus_number as nat) + ",\"address\":"@ + dec_rep(d.address as nat)
        + ",\"d_version_major\":"@ + dec_rep(d.d_version_major as nat) + ",\"d_version_minor\":"@
        + dec_rep(d.d_version_minor as nat) + ",\"d_version_sub\":"@ + dec_rep(
        d.d_version_sub as nat,
    ) + ",\"d_class\":"@ + dec_rep(d.d_class as nat) + ",\"d_subclass\":"@ + dec_rep(
        d.d_subclass as nat,
    ) + ",\"d_proto\":"@ + dec_rep(d.d_proto as nat) + ",\"d_vendor_id\":"@ + dec_rep(
        d.d_vendor_id as nat,
    ) + ",\"d_product_id\":"@ + dec_rep(d.d_product_id as nat) + ",\"configs\":["@ + enc_configs(
        d.configs,
    ) + "]}"@
}

/// The canonical text of a device list, commas between entries, brackets
/// not included.
pub open spec fn enc_devs(s: Seq<DevV>) -> Seq<char>
    decreases s.len(),
{
    if s.len() == 0 {
        Seq::empty()
    } else {
        enc_dev(s[0]) + enc_devs_rest(s.drop_first())
    }
}

/// The canonical text of the device entries after the first, each led by
/// its comma.
pub open spec fn enc_devs_rest(s: Seq<DevV>) -> Seq<char>
    decreases s.len(),
{
    if s.len() == 0 {
        Seq::empty()
    } else {
        seq![','] + enc_dev(s[0]) + enc_devs_rest(s.drop_first())
    }
}

/// The canonical text of a whole snapshot.
pub open spec fn enc_snapshot(s: Seq<DevV>) -> Seq<char> {
    "["@ + enc_devs(s) + "]"@
}

proof fn lemma_esc_str_push(s: Seq<char>, c: char)
    ensures
        esc_str(s.push(c)) == esc_str(s) + esc_char(c),
    decreases s.len(),
{
    broadcast use Seq::add_empty_left, Seq::add_empty_right;

    if s.len() == 0 {
        assert(s.push(c)[0] == c);
        assert(s.push(c).drop_first() =~= Seq::<char>::empty());
        assert(esc_str(Seq::<char>::empty()) == Seq::<char>::empty());
        assert(esc_str(s.push(c)) == esc_char(c) + Seq::<char>::empty());
    } else {
        assert(s.push(c)[0] == s[0]);
        assert(s.push(c).drop_first() =~= s.drop_first().push(c));
        lemma_esc_str_push(s.drop_first(), c);
        assert(esc_str(s.push(c)) == esc_char(s[0]) + (esc_str(s.drop_first()) + esc_char(c)));
        vstd::seq_lib::lemma_concat_associative(
            esc_char(s[0]),
            esc_str(s.drop_first()),
            esc_char(c),
        );
        assert(esc_str(s) == esc_char(s[0]) + esc_str(s.drop_first()));
    }
}

proof fn lemma_enc_configs_rest_push(cs: Seq<ConfigV>, c: ConfigV)
    ensures
        enc_configs_rest(cs.push(c)) == enc_configs_rest(cs) + seq![','] + enc_config(c),
    decreases cs.len(),
{
    broadcast use Seq::add_empty_left, Seq::add_empty_right;

    let m = seq![','];
    if cs.len() == 0 {
        assert(cs.push(c)[0] == c);
        assert(cs.push(c).drop_first() =~= Seq::<ConfigV>::empty());
        assert(enc_configs_rest(Seq::<ConfigV>::empty()) == Seq::<char>::empty());
        assert(enc_configs_rest(cs.push(c)) == m + enc_config(c) + Seq::<char>::empty());
        vstd::seq_lib::lemma_concat_associative(m, enc_config(c), Seq::<char>::empty());
        assert(enc_config(c) + Seq::<char>::empty() == enc_config(c));
    } else {
        assert(cs.push(c)[0] == cs[0]);
        assert(cs.push(c).drop_first() =~= cs.drop_first().push(c));
        lemma_enc_configs_rest_push(cs.drop_first(), c);
        let x = m + enc_config(cs[0]);
        let y = enc_configs_rest(cs.drop_first());
        let e = enc_config(c);
        assert(enc_configs_rest(cs.push(c)) == x + (y + m + e));
        vstd::seq_lib::lemma_concat_associative(y, m, e);
        vstd::seq_lib::lemma_concat_associative(x, y, m + e);
        vstd::seq_lib::lemma_concat_associative(x + y, m, e);
        assert(enc_configs_rest(cs) == x + y);
    }
}

proof fn lemma_enc_configs_push(cs: Seq<ConfigV>, c: ConfigV)
    ensures
        cs.len() == 0 ==> enc_configs(cs.push(c)) == enc_config(c),
        cs.len() > 0 ==> enc_configs(cs.push(c)) == enc_configs(cs) + seq![','] + enc_config(c),
{
    broadcast use Seq::add_empty_left, Seq::add_empty_right;

    let m = seq![','];
    if cs.len() == 0 {
        assert(cs.push(c)[0] == c);
        assert(cs.push(c).drop_first() =~= Seq::<ConfigV>::empty());
        assert(enc_configs_rest(Seq::<ConfigV>::empty()) == Seq::<char>::empty());
        assert(enc_configs(cs.push(c)) == enc_config(c) + Seq::<char>::empty());
    } else {
        assert(cs.push(c)[0] == cs[0]);
        assert(cs.push(c).drop_first() =~= cs.drop_first().push(c));
        lemma_enc_configs_rest_push(cs.drop_first(), c);
        let x = enc_config(cs[0]);
        let y = enc_configs_rest(cs.drop_first());
        let e = enc_config(c);
        assert(enc_configs(cs.push(c)) == x + (y + m + e));
        vstd::seq_lib::lemma_concat_associative(y, m, e);
        vstd::seq_lib::lemma_concat_associative(x, y, m + e);
        vstd::seq_lib::lemma_concat_associative(x + y, m, e);
        assert(enc_configs(cs) == x + y);
    }
}

proof fn lemma_enc_devs_rest_push(s: Seq<DevV>, d: DevV)
    ensures
        enc_devs_rest(s.push(d)) == enc_devs_rest(s) + seq![','] + enc_dev(d),
    decreases s.len(),
{
    broadcast use Seq::add_empty_left, Seq::add_empty_right;

    let m = seq![','];
    if s.len() == 0 {
        assert(s.push(d)[0] == d);
        assert(s.push(d).drop_first() =~= Seq::<DevV>::empty());
        assert(enc_devs_rest(Seq::<DevV>::empty()) == Seq::<char>::empty());
        assert(enc_devs_rest(s.push(d)) == m + enc_dev(d) + Seq::<char>::empty());
        vstd::seq_lib::lemma_concat_associative(m, enc_dev(d), Seq::<char>::empty());
        assert(enc_dev(d) + Seq::<char>::empty() == enc_dev(d));
    } else {
        assert(s.push(d)[0] == s[0]);
        assert(s.push(d).drop_first() =~= s.drop_first().push(d));
        lemma_enc_devs_rest_push(s.drop_first(), d);
        let x = m + enc_dev(s[0]);
        let y = enc_devs_rest(s.drop_first());
        let e = enc_dev(d);
        assert(enc_devs_rest(s.push(d)) == x + (y + m + e));
        vstd::seq_lib::lemma_concat_associative(y, m, e);
        vstd::seq_lib::lemma_concat_associative(x, y, m + e);
        vstd::seq_lib::lemma_concat_associative(x + y, m, e);
        assert(enc_devs_rest(s) == x + y);
    }
}

proof fn lemma_enc_devs_push(s: Seq<DevV>, d: DevV)
    ensures
        s.len() == 0 ==> enc_devs(s.push(d)) == enc_dev(d),
        s.len() > 0 ==> enc_devs(s.push(d)) == enc_devs(s) + seq![','] + enc_dev(d),
{
    broadcast use Seq::add_empty_left, Seq::add_empty_right;

    let m = seq![','];
    if s.len() == 0 {
        assert(s.push(d)[0] == d);
        assert(s.push(d).drop_first() =~= Seq::<DevV>::empty());
        assert(enc_devs_rest(Seq::<DevV>::empty()) == Seq::<char>::empty());
        assert(enc_devs(s.push(d)) == enc_dev(d) + Seq::<char>::empty());
    } else {
        assert(s.push(d)[0] == s[0]);
        assert(s.push(d).drop_first() =~= s.drop_first().push(d));
        lemma_enc_devs_rest_push(s.drop_first(), d);
        let x = enc_dev(s[0]);
        let y = enc_devs_rest(s.drop_first());
        let e = enc_dev(d);
        assert(enc_devs(s.push(d)) == x + (y + m + e));
        vstd::seq_lib::lemma_concat_associative(y, m, e);
        vstd::seq_lib::lemma_concat_associative(x, y, m + e);
        vstd::seq_lib::lemma_concat_associative(x + y, m, e);
        assert(enc_devs(s) == x + y);
    }
}

/// Appends the text of a boolean field.
fn append_bool(out: &mut String, b: bool)
    ensures
        final(out)@ == old(out)@ + bool_rep(b),
{
    if b {
        out.append("true");
        proof {
            reveal_strlit("true");
            assert("true"@ =~= bool_rep(true));
        }
    } else {
        out.append("false");
        proof {
            reveal_strlit("false");
            assert("false"@ =~= bool_rep(false));
        }
    }
}

/// Appends the escaped text of a string field and its closing quote.
fn append_qstr(out: &mut String, s: &str)
    ensures
        final(out)@ == old(out)@ + esc_str(s@) + seq!['"'],
{
    let n = s.unicode_len();
    let mut i: usize = 0;
    while i < n
        invariant
            n == s@.len(),
            i <= n,
            out@ == old(out)@ + esc_str(s@.take(i as int)),
        decreases n - i,
    {
        let c = s.get_char(i);
        proof {
            lemma_esc_str_push(s@.take(i as int), c);
            assert(s@.take(i + 1) =~= s@.take(i as int).push(s@[i as int]));
        }
        if c == '"' || c == '\\' {
            push_char(out, '\\');
            push_char(out, c);
            proof {
                assert(esc_char(c) =~= seq!['\\', c]);
                assert(out@ =~= old(out)@ + esc_str(s@.take(i + 1)));
            }
        } else {
            push_char(out, c);
            proof {
                assert(esc_char(c) =~= seq![c]);
                assert(out@ =~= old(out)@ + esc_str(s@.take(i + 1)));
            }
        }
        i += 1;
    }
    proof {
        assert(s@.take(n as int) =~= s@);
    }
    push_char(out, '"');
    proof {
        assert(out@ =~= old(out)@ + esc_str(s@) + seq!['"']);
    }
}

/// The canonical text of one configuration record.
fn config_text(c: &Config) -> (r: String)
    ensures
        r@ == enc_config(c@),
{
    let mut out = String::new();
    out.append("{\"config_num\":");
    proof {
        broadcast use Seq::add_empty_left;

        assert(out@ == "{\"config_num\":"@);
    }
    append_dec(&mut out, c.config_num as u16);
    out.append(",\"max_power\":");
    append_dec(&mut out, c.max_power);
    out.append(",\"internal_powered\":");
    append_bool(&mut out, c.internal_powered);
    out.append(",\"remote_wakeup\":");
    append_bool(&mut out, c.remote_wakeup);
    out.append(",\"config_str\":\"");
    append_qstr(&mut out, c.config_str.as_str());
    out.append("}");
    proof {
        assert(out@ == enc_config(c@));
    }
    out
}

/// The canonical text of one device record.
fn dev_text(d: &Dev) -> (r: String)
    ensures
        r@ == enc_dev(d@),
{
    let mut out = String::new();
    out.append("{\"product\":\"");
    proof {
        broadcast use Seq::add_empty_left;

        assert(out@ == "{\"product\":\""@);
    }
    append_qstr(&mut out, d.product.as_str());
    out.append(",\"manufacturer\":\"");
    append_qstr(&mut out, d.manufacturer.as_str());
    out.append(",\"serial_num\":\"");
    append_qstr(&mut out, d.serial_num.as_str());
    out.append(",\"bus_number\":");
    append_dec(&mut out, d.bus_number as u16);
    out.append(",\"address\":");
    append_dec(&mut out, d.address as u16);
    out.append(",\"d_version_major\":");
    append_dec(&mut out, d.d_version_major as u16);
    out.append(",\"d_version_minor\":");
    append_dec(&mut out, d.d_version_minor as u16);
    out.append(",\"d_version_sub\":");
    append_dec(&mut out, d.d_version_sub as u16);
    out.append(",\"d_class\":");
    append_dec(&mut out, d.d_class as u16);
    out.append(",\"d_subclass\":");
    append_dec(&mut out, d.d_subclass as u16);
    out.append(",\"d_proto\":");
    append_dec(&mut out, d.d_proto as u16);
    out.append(",\"d_vendor_id\":");
    append_dec(&mut out, d.d_vendor_id);
    out.append(",\"d_product_id\":");
    append_dec(&mut out, d.d_product_id);
    out.append(",\"configs\":[");
    let ghost mid = out@;
    let ghost cv = configs_view(d.configs@);
    let n = d.configs.len();
    let mut i: usize = 0;
    while i < n
        invariant
            n == d.configs@.len(),
            i <= n,
            cv == configs_view(d.configs@),
            out@ == mid + enc_configs(cv.take(i as int)),
        decreases n - i,
    {
        proof {
            assert(cv[i as int] == d.configs@[i as int]@);
            assert(cv.take(i + 1) =~= cv.take(i as int).push(cv[i as int]));
            lemma_enc_configs_push(cv.take(i as int), cv[i as int]);
        }
        let ghost prev = enc_configs(cv.take(i as int));
        if i > 0 {
            out.append(",");
            proof {
                reveal_strlit(",");
                assert(","@ =~= seq![',']);
            }
        }
        let t = config_text(&d.configs[i]);
        out.append(t.as_str());
        proof {
            let e = enc_config(cv[i as int]);
            if i == 0 {
                assert(cv.take(0int) =~= Seq::<ConfigV>::empty());
                assert(prev == Seq::<char>::empty());
                broadcast use Seq::add_empty_right;

                assert(mid + prev == mid);
                assert(out@ == mid + enc_configs(cv.take(i + 1)));
            } else {
                let m = seq![','];
                assert(out@ == mid + prev + m + e);
                assert(mid + (prev + m + e) == mid + prev + m + e) by {
                    vstd::seq_lib::lemma_concat_associative(prev, m, e);
                    vstd::seq_lib::lemma_concat_associative(mid, prev + m, e);
                    vstd::seq_lib::lemma_concat_associative(mid, prev, m);
                }
                assert(out@ == mid + enc_configs(cv.take(i + 1)));
            }
        }
        i += 1;
    }
    proof {
        assert(cv.take(n as int) =~= cv);
    }
    out.append("]}");
    proof {
        assert(out@ == enc_dev(d@));
    }
    out
}

/// Turns a snapshot into its canonical persisted text.
pub fn encode_snapshot(devs: &Vec<Dev>) -> (r: String)
    ensures
        r@ == enc_snapshot(snap_view(devs@)),
{
    let ghost sv = snap_view(devs@);
    let mut out = String::new();
    out.append("[");
    proof {
        broadcast use Seq::add_empty_left;

        assert(out@ == "["@);
    }
    let ghost mid = out@;
    let n = devs.len();
    let mut i: usize = 0;
    while i < n
        invariant
            n == devs@.len(),
            i <= n,
            sv == snap_view(devs@),
            mid == "["@,
            out@ == mid + enc_devs(sv.take(i as int)),
        decreases n - i,
    {
        proof {
            assert(sv[i as int] == devs@[i as int]@);
            assert(sv.take(i + 1) =~= sv.take(i as int).push(sv[i as int]));
            lemma_enc_devs_push(sv.take(i as int), sv[i as int]);
        }
        let ghost prev = enc_devs(sv.take(i as int));
        if i > 0 {
            out.append(",");
            proof {
                reveal_strlit(",");
                assert(","@ =~= seq![',']);
            }
        }
        let t = dev_text(&devs[i]);
        out.append(t.as_str());
        proof {
            let e = enc_dev(sv[i as int]);
            if i == 0 {
                assert(sv.take(0int) =~= Seq::<DevV>::empty());
                assert(prev == Seq::<char>::empty());
                broadcast use Seq::add_empty_right;

                assert(mid + prev == mid);
                assert(out@ == mid + enc_devs(sv.take(i + 1)));
            } else {
                let m = seq![','];
                assert(out@ == mid + prev + m + e);
                assert(mid + (prev + m + e) == mid + prev + m + e) by {
                    vstd::seq_lib::lemma_concat_associative(prev, m, e);
                    vstd::seq_lib::lemma_concat_associative(mid, prev + m, e);
                    vstd::seq_lib::lemma_concat_associative(mid, prev, m);
                }
                assert(out@ == mid + enc_devs(sv.take(i + 1)));
            }
        }
        i += 1;
    }
    proof {
        assert(sv.take(n as int) =~= sv);
    }
    out.append("]");
    proof {
        assert(out@ == enc_snapshot(sv));
    }
    out
}

proof fn lemma_skip_decomp(t: Seq<char>, a: int, b: int)
    requires
        0 <= a <= b <= t.len(),
    ensures
        t.skip(a) == t.subrange(a, b) + t.skip(b),
{
    assert(t.skip(a) =~= t.subrange(a, b) + t.skip(b));
}

proof fn lemma_prefix_cancel(p: Seq<char>, x: Seq<char>, y: Seq<char>)
    requires
        p + x == p + y,
    ensures
        x == y,
{
    assert((p + x).len() == p.len() + x.len());
    assert((p + y).len() == p.len() + y.len());
    assert(x =~= y) by {
        assert(forall|i: int|
            0 <= i < x.len() ==> x[i] == (p + x)[p.len() + i] && y[i] == (p + y)[p.len() + i]);
    }
}

/// A digit string and a following non-digit boundary determine the number:
/// two such readings of one text agree.
proof fn lemma_num_unique(a: nat, b: nat, r1: Seq<char>, r2: Seq<char>)
    requires
        dec_rep(a) + r1 == dec_rep(b) + r2,
        r1.len() == 0 || !is_digit(r1[0]),
        r2.len() == 0 || !is_digit(r2[0]),
    ensures
        a == b,
        r1 == r2,
{
    lemma_dec_rep_wf(a);
    lemma_dec_rep_wf(b);
    lemma_digit_run_unique(dec_rep(a), r1, dec_rep(b), r2);
    lemma_dec_rep_injective(a, b);
}

proof fn lemma_bool_unique(b1: bool, b2: bool, r1: Seq<char>, r2: Seq<char>)
    requires
        bool_rep(b1) + r1 == bool_rep(b2) + r2,
    ensures
        b1 == b2,
        r1 == r2,
{
    if b1 != b2 {
        assert((bool_rep(b1) + r1)[0] == bool_rep(b1)[0]);
        assert((bool_rep(b2) + r2)[0] == bool_rep(b2)[0]);
        assert(false);
    }
    lemma_prefix_cancel(bool_rep(b1), r1, r2);
}

/// Aligns a partially read string against a claimed decomposition: when the
/// text both starts with the escape of `a` and is the escape of `w` plus a
/// closing quote plus `tail`, then `a` is a prefix of `w` and the unread
/// part is the escape of the remainder of `w`.
proof fn lemma_esc_align(a: Seq<char>, x: Seq<char>, w: Seq<char>, tail: Seq<char>)
    requires
        esc_str(a) + x == esc_str(w) + seq!['"'] + tail,
    ensures
        exists|w2: Seq<char>| w == a + w2 && x == #[trigger] esc_str(w2) + seq!['"'] + tail,
    decreases a.len(),
{
    broadcast use Seq::add_empty_left, Seq::add_empty_right;

    if a.len() == 0 {
        assert(esc_str(a) == Seq::<char>::empty());
        assert(x == esc_str(w) + seq!['"'] + tail);
        assert(w == a + w && x == esc_str(w) + seq!['"'] + tail);
    } else {
        let a0 = a[0];
        let arest = a.drop_first();
        assert(esc_str(a) == esc_char(a0) + esc_str(arest));
        let lhs = esc_str(a) + x;
        let rhs = esc_str(w) + seq!['"'] + tail;
        assert(lhs[0] == esc_char(a0)[0]);
        if w.len() == 0 {
            assert(esc_str(w) == Seq::<char>::empty());
            assert(rhs[0] == '"');
            assert(esc_char(a0)[0] != '"');
            assert(false);
        }
        let w0 = w[0];
        let wrest = w.drop_first();
        assert(esc_str(w) == esc_char(w0) + esc_str(wrest));
        assert(rhs[0] == esc_char(w0)[0]);
        let ea = esc_char(a0);
        let ew = esc_char(w0);
        if ea.len() == 2 && ew.len() == 1 {
            assert(ea[0] == '\\');
            assert(ew[0] == w0);
            assert(w0 != '"' && w0 != '\\');
            assert(false);
        }
        if ea.len() == 1 && ew.len() == 2 {
            assert(ew[0] == '\\');
            assert(ea[0] == a0);
            assert(a0 != '"' && a0 != '\\');
            assert(false);
        }
        if ea.len() == 2 {
            assert(lhs[1] == ea[1]);
            assert(rhs[1] == ew[1]);
            assert(a0 == w0);
        } else {
            assert(a0 == w0);
        }
        assert(ea == ew);
        vstd::seq_lib::lemma_concat_associative(ea, esc_str(arest), x);
        vstd::seq_lib::lemma_concat_associative(ew, esc_str(wrest), seq!['"']);
        vstd::seq_lib::lemma_concat_associative(ew, esc_str(wrest) + seq!['"'], tail);
        assert(ea + (esc_str(arest) + x) == ew + (esc_str(wrest) + seq!['"'] + tail));
        lemma_prefix_cancel(ea, esc_str(arest) + x, esc_str(wrest) + seq!['"'] + tail);
        lemma_esc_align(arest, x, wrest, tail);
        let w2 = choose|w2: Seq<char>|
            wrest == arest + w2 && x == #[trigger] esc_str(w2) + seq!['"'] + tail;
        assert(w.len() == a.len() + w2.len());
        assert forall|i: int| 0 <= i < w.len() implies w[i] == (a + w2)[i] by {
            if i == 0 {
                assert(w[0] == w0);
                assert((a + w2)[0] == a[0]);
            } else {
                assert(w[i] == wrest[i - 1]);
                assert(wrest[i - 1] == (arest + w2)[i - 1]);
                if i - 1 < arest.len() {
                    assert((arest + w2)[i - 1] == arest[i - 1]);
                    assert(arest[i - 1] == a[i]);
                    assert((a + w2)[i] == a[i]);
                } else {
                    assert((arest + w2)[i - 1] == w2[i - 1 - arest.len()]);
                    assert((a + w2)[i] == w2[i - a.len()]);
                }
            }
        }
        assert(w =~= a + w2);
        assert(w == a + w2 && x == esc_str(w2) + seq!['"'] + tail);
    }
}

/// An escaped string closed by its quote determines the string: two such
/// readings of one text agree.
proof fn lemma_qstr_unique(v: Seq<char>, w: Seq<char>, r1: Seq<char>, r2: Seq<char>)
    requires
        esc_str(v) + seq!['"'] + r1 == esc_str(w) + seq!['"'] + r2,
    ensures
        v == w,
        r1 == r2,
{
    broadcast use Seq::add_empty_left, Seq::add_empty_right;

    vstd::seq_lib::lemma_concat_associative(esc_str(v), seq!['"'], r1);
    lemma_esc_align(v, seq!['"'] + r1, w, r2);
    let w2 = choose|w2: Seq<char>|
        w == v + w2 && (seq!['"'] + r1) == #[trigger] esc_str(w2) + seq!['"'] + r2;
    if w2.len() > 0 {
        assert(esc_str(w2) == esc_char(w2[0]) + esc_str(w2.drop_first()));
        assert((esc_str(w2) + seq!['"'] + r2)[0] == esc_char(w2[0])[0]);
        assert((seq!['"'] + r1)[0] == '"');
        assert(esc_char(w2[0])[0] != '"');
        assert(false);
    }
    assert(esc_str(w2) == Seq::<char>::empty());
    assert(w =~= v);
    assert(seq!['"'] + r1 == seq!['"'] + r2);
    lemma_prefix_cancel(seq!['"'], r1, r2);
}

/// Whether the text `l` stands at position `pos` of `t`.
pub open spec fn lit_at(t: Seq<char>, pos: int, l: Seq<char>) -> bool {
    pos + l.len() <= t.len() && t.subrange(pos, pos + l.len()) == l
}

/// Consumes the exact text `lit` at `pos`, if it stands there.
fn take_lit(s: &str, pos: usize, lit: &str) -> (r: Option<usize>)
    requires
        pos <= s@.len(),
    ensures
        r matches Some(p) ==> p == pos + lit@.len() && p <= s@.len() && s@.subrange(
            pos as int,
            p as int,
        ) == lit@,
        r is None ==> !lit_at(s@, pos as int, lit@),
{
    let n = s.unicode_len();
    let ll = lit.unicode_len();
    if n - pos < ll {
        return None;
    }
    let mut i: usize = 0;
    while i < ll
        invariant
            n == s@.len(),
            ll == lit@.len(),
            pos + ll <= n,
            i <= ll,
            forall|k: int| 0 <= k < i ==> s@[pos + k] == lit@[k],
        decreases ll - i,
    {
        let a = s.get_char(pos + i);
        let b = lit.get_char(i);
        if a != b {
            proof {
                if lit_at(s@, pos as int, lit@) {
                    assert(s@.subrange(pos as int, pos + lit@.len())[i as int] == s@[pos + i]);
                    assert(false);
                }
            }
            return None;
        }
        i += 1;
    }
    proof {
        assert(s@.subrange(pos as int, pos + ll) =~= lit@);
    }
    Some(pos + ll)
}

/// Reads a decimal number at `pos`: the longest canonical digit run, up to
/// `max`.
fn parse_num(s: &str, pos: usize, max: u32) -> (r: Option<(u32, usize)>)
    requires
        pos <= s@.len(),
        9 <= max <= 0xFFFF,
    ensures
        r matches Some((v, p)) ==> v <= max && pos < p <= s@.len() && s@.subrange(
            pos as int,
            p as int,
        ) == dec_rep(v as nat) && (p == s@.len() || !is_digit(s@[p as int])),
        forall|n: u32, rest: Seq<char>|
            (n <= max && s@.skip(pos as int) == #[trigger] (dec_rep(n as nat) + rest) && (rest.len()
                == 0 || !is_digit(rest[0]))) ==> (r matches Some((v, p)) && v == n && p as int
                == pos + dec_rep(n as nat).len()),
{
    let n_total = s.unicode_len();
    if pos >= n_total {
        proof {
            assert forall|n: u32, rest: Seq<char>|
                !(n <= max && s@.skip(pos as int) == #[trigger] (dec_rep(n as nat) + rest) && (
                rest.len() == 0 || !is_digit(rest[0]))) by {
                if s@.skip(pos as int) == dec_rep(n as nat) + rest {
                    lemma_dec_rep_wf(n as nat);
                    assert(s@.skip(pos as int).len() == 0);
                    assert((dec_rep(n as nat) + rest).len() >= 1);
                }
            }
        }
        return None;
    }
    let c0 = s.get_char(pos);
    proof {
        assert(s@.skip(pos as int)[0] == s@[pos as int]);
    }
    let d0 = match digit_of(c0) {
        None => {
            proof {
                assert forall|n: u32, rest: Seq<char>|
                    !(n <= max && s@.skip(pos as int) == #[trigger] (dec_rep(n as nat) + rest) && (
                    rest.len() == 0 || !is_digit(rest[0]))) by {
                    if s@.skip(pos as int) == dec_rep(n as nat) + rest {
                        lemma_dec_rep_wf(n as nat);
                        assert((dec_rep(n as nat) + rest)[0] == dec_rep(n as nat)[0]);
                        assert(is_digit(dec_rep(n as nat)[0]));
                    }
                }
            }
            return None;
        },
        Some(d) => d,
    };
    if d0 == 0 {
        proof {
            assert(c0 == '0');
        }
        if pos + 1 < n_total {
            let c1 = s.get_char(pos + 1);
            if digit_of(c1).is_some() {
                proof {
                    assert forall|n: u32, rest: Seq<char>|
                        !(n <= max && s@.skip(pos as int) == #[trigger] (dec_rep(n as nat) + rest)
                            && (rest.len() == 0 || !is_digit(rest[0]))) by {
                        if n <= max && s@.skip(pos as int) == dec_rep(n as nat) + rest && (
                        rest.len() == 0 || !is_digit(rest[0])) {
                            lemma_dec_rep_wf(n as nat);
                            assert(dec_rep(n as nat)[0] == s@[pos as int]);
                            assert(n as nat == 0) by {
                                if n as nat >= 1 {
                                    assert(dec_rep(n as nat)[0] != '0');
                                }
                            }
                            assert(dec_rep(n as nat) == seq!['0']);
                            assert(dec_rep(n as nat).len() == 1);
                            assert(rest.len() == s@.skip(pos as int).len() - 1);
                            assert(rest.len() > 0);
                            assert(rest[0] == (dec_rep(n as nat) + rest)[1]);
                            assert(rest[0] == s@.skip(pos as int)[1]);
                            assert(s@.skip(pos as int)[1] == s@[pos + 1]);
                            assert(is_digit(c1));
                        }
                    }
                }
                return None;
            }
        }
        proof {
            assert(s@.subrange(pos as int, pos + 1) =~= seq![s@[pos as int]]);
            assert(dec_rep(0) == seq![digit_char(0)]);
            assert(s@.subrange(pos as int, pos + 1) == dec_rep(0));
            assert forall|n: u32, rest: Seq<char>|
                (n <= max && s@.skip(pos as int) == #[trigger] (dec_rep(n as nat) + rest) && (
                rest.len() == 0 || !is_digit(rest[0]))) implies (0u32 == n && pos + 1 == pos
                + dec_rep(n as nat).len()) by {
                lemma_dec_rep_wf(n as nat);
                assert(dec_rep(n as nat)[0] == s@[pos as int]);
                assert(n as nat == 0) by {
                    if n as nat >= 1 {
                        assert(dec_rep(n as nat)[0] != '0');
                    }
                }
            }
        }
        return Some((0, pos + 1));
    }
    let mut val: u32 = d0 as u32;
    let mut p: usize = pos + 1;
    proof {
        assert(digit_char(digit_val(c0)) == c0);
        assert(dec_rep(val as nat) == seq![digit_char(val as nat)]);
        assert(s@.subrange(pos as int, p as int) =~= seq![s@[pos as int]]);
        lemma_dec_rep_wf(val as nat);
    }
    while p < n_total
        invariant
            n_total == s@.len(),
            pos < p <= n_total,
            9 <= max <= 0xFFFF,
            1 <= val <= max,
            s@.subrange(pos as int, p as int) == dec_rep(val as nat),
        decreases n_total - p,
    {
        let c = s.get_char(p);
        match digit_of(c) {
            None => {
                proof {
                    lemma_dec_rep_wf(val as nat);
                    assert forall|n: u32, rest: Seq<char>|
                        (n <= max && s@.skip(pos as int) == #[trigger] (dec_rep(n as nat) + rest)
                            && (rest.len() == 0 || !is_digit(rest[0]))) implies (val == n
                        && p as int == pos + dec_rep(n as nat).len()) by {
                        lemma_skip_decomp(s@, pos as int, p as int);
                        assert(s@.skip(p as int)[0] == s@[p as int]);
                        lemma_num_unique(val as nat, n as nat, s@.skip(p as int), rest);
                    }
                }
                return Some((val, p));
            },
            Some(d) => {
                let nv = val * 10 + d as u32;
                if nv > max {
                    proof {
                        lemma_dec_rep_wf(val as nat);
                        assert forall|n: u32, rest: Seq<char>|
                            !(n <= max && s@.skip(pos as int) == #[trigger] (dec_rep(n as nat)
                                + rest) && (rest.len() == 0 || !is_digit(rest[0]))) by {
                            if n <= max && s@.skip(pos as int) == dec_rep(n as nat) + rest && (
                            rest.len() == 0 || !is_digit(rest[0])) {
                                lemma_dec_rep_wf(n as nat);
                                let dn = dec_rep(n as nat);
                                let consumed2 = s@.subrange(pos as int, p + 1);
                                assert(consumed2 =~= s@.subrange(pos as int, p as int).push(
                                    s@[p as int],
                                ));
                                assert(consumed2.drop_last() == dec_rep(val as nat));
                                assert(consumed2.last() == s@[p as int]);
                                assert(fold_val(consumed2) == fold_val(dec_rep(val as nat)) * 10
                                    + digit_val(s@[p as int]));
                                assert(fold_val(consumed2) == nv);
                                assert(all_digits(consumed2));
                                assert(consumed2.len() <= dn.len()) by {
                                    if consumed2.len() > dn.len() {
                                        assert(s@.skip(pos as int).len() >= consumed2.len());
                                        assert(rest.len() > 0);
                                        assert(rest[0] == (dn + rest)[dn.len() as int]);
                                        assert(s@.skip(pos as int)[dn.len() as int] == s@[pos
                                            + dn.len()]);
                                        assert(consumed2[dn.len() as int] == s@[pos + dn.len()]);
                                        assert(is_digit(consumed2[dn.len() as int]));
                                        assert(false);
                                    }
                                }
                                assert(consumed2 =~= dn.take(consumed2.len() as int)) by {
                                    assert(forall|i: int|
                                        0 <= i < consumed2.len() ==> consumed2[i] == s@[pos + i]
                                            && s@.skip(pos as int)[i] == s@[pos + i] && (dn
                                            + rest)[i] == dn[i]);
                                }
                                lemma_fold_val_prefix(consumed2, dn);
                                assert(fold_val(dn) == n as nat);
                                assert(false);
                            }
                        }
                    }
                    return None;
                }
                proof {
                    let v10 = 10 * (val as nat) + (d as nat);
                    assert(v10 / 10 == val as nat && v10 % 10 == d as nat) by (nonlinear_arith)
                        requires
                            d < 10,
                            val >= 1,
                            v10 == 10 * (val as nat) + (d as nat),
                    ;
                    assert(v10 >= 10);
                    assert(dec_rep(v10) == dec_rep(val as nat).push(digit_char(d as nat)));
                    assert(digit_char(digit_val(c)) == c);
                    assert(s@.subrange(pos as int, p + 1) =~= s@.subrange(pos as int, p as int).push(
                        s@[p as int],
                    ));
                    assert(nv as nat == v10);
                }
                val = nv;
                p += 1;
            },
        }
    }
    proof {
        lemma_dec_rep_wf(val as nat);
        assert forall|n: u32, rest: Seq<char>|
            (n <= max && s@.skip(pos as int) == #[trigger] (dec_rep(n as nat) + rest) && (rest.len()
                == 0 || !is_digit(rest[0]))) implies (val == n && p as int == pos + dec_rep(
            n as nat,
        ).len()) by {
            lemma_skip_decomp(s@, pos as int, p as int);
            assert(s@.skip(p as int).len() == 0);
            lemma_num_unique(val as nat, n as nat, s@.skip(p as int), rest);
        }
    }
    Some((val, p))
}

proof fn lemma_prefix_lit_at(t: Seq<char>, pos: int, l: Seq<char>, rest: Seq<char>)
    requires
        0 <= pos <= t.len(),
        t.skip(pos) == l + rest,
    ensures
        lit_at(t, pos, l),
{
    assert(t.skip(pos).len() == t.len() - pos);
    assert(pos + l.len() <= t.len());
    assert(t.subrange(pos, pos + l.len()) =~= l) by {
        assert(forall|i: int|
            0 <= i < l.len() ==> t.subrange(pos, pos + l.len())[i] == t[pos + i] && t.skip(pos)[i]
                == t[pos + i] && (l + rest)[i] == l[i]);
    }
}

/// Reads a boolean field at `pos`.
fn parse_bool(s: &str, pos: usize) -> (r: Option<(bool, usize)>)
    requires
        pos <= s@.len(),
    ensures
        r matches Some((b, p)) ==> pos < p <= s@.len() && s@.subrange(pos as int, p as int)
            == bool_rep(b),
        forall|b: bool, rest: Seq<char>|
            s@.skip(pos as int) == #[trigger] (bool_rep(b) + rest) ==> (r matches Some((v, p)) && v
                == b && p as int == pos + bool_rep(b).len()),
{
    proof {
        reveal_strlit("true");
        reveal_strlit("false");
        assert("true"@ =~= bool_rep(true));
        assert("false"@ =~= bool_rep(false));
    }
    match take_lit(s, pos, "true") {
        Some(p) => {
            proof {
                assert forall|b: bool, rest: Seq<char>|
                    s@.skip(pos as int) == #[trigger] (bool_rep(b) + rest) implies (true == b
                    && p as int == pos + bool_rep(b).len()) by {
                    lemma_skip_decomp(s@, pos as int, p as int);
                    lemma_bool_unique(true, b, s@.skip(p as int), rest);
                }
            }
            Some((true, p))
        },
        None => match take_lit(s, pos, "false") {
            Some(p) => {
                proof {
                    assert forall|b: bool, rest: Seq<char>|
                        s@.skip(pos as int) == #[trigger] (bool_rep(b) + rest) implies (false == b
                        && p as int == pos + bool_rep(b).len()) by {
                        if b {
                            lemma_prefix_lit_at(s@, pos as int, bool_rep(true), rest);
                        }
                        lemma_skip_decomp(s@, pos as int, p as int);
                        lemma_bool_unique(false, b, s@.skip(p as int), rest);
                    }
                }
                Some((false, p))
            },
            None => {
                proof {
                    assert forall|b: bool, rest: Seq<char>|
                        !(s@.skip(pos as int) == #[trigger] (bool_rep(b) + rest)) by {
                        if s@.skip(pos as int) == bool_rep(b) + rest {
                            if b {
                                lemma_prefix_lit_at(s@, pos as int, bool_rep(true), rest);
                            } else {
                                lemma_prefix_lit_at(s@, pos as int, bool_rep(false), rest);
                            }
                            assert(false);
                        }
                    }
                }
                None
            },
        },
    }
}

/// Reads the escaped body of a string field and its closing quote at
/// `pos`, the opening quote having been consumed with the field name.
fn parse_qstring(s: &str, pos: usize) -> (r: Option<(String, usize)>)
    requires
        pos <= s@.len(),
    ensures
        r matches Some((v, p)) ==> pos <= p <= s@.len() && s@.subrange(pos as int, p as int)
            == esc_str(v@) + seq!['"'],
        forall|w: Seq<char>, rest: Seq<char>|
            s@.skip(pos as int) == #[trigger] (esc_str(w) + seq!['"'] + rest) ==> (r matches Some(
                (v, p),
            ) && v@ == w && p as int == pos + esc_str(w).len() + 1),
{
    let n = s.unicode_len();
    let mut out = String::new();
    let mut cur: usize = pos;
    proof {
        assert(s@.subrange(pos as int, pos as int) =~= Seq::<char>::empty());
    }
    while cur < n
        invariant
            n == s@.len(),
            pos <= cur <= n,
            s@.subrange(pos as int, cur as int) == esc_str(out@),
        decreases n - cur,
    {
        let c = s.get_char(cur);
        if c == '"' {
            proof {
                assert(s@.subrange(pos as int, cur + 1) =~= s@.subrange(pos as int, cur as int).push(
                    s@[cur as int],
                ));
                assert(esc_str(out@).push('"') =~= esc_str(out@) + seq!['"']);
                assert forall|w: Seq<char>, rest: Seq<char>|
                    s@.skip(pos as int) == #[trigger] (esc_str(w) + seq!['"'] + rest) implies (out@
                    == w && cur + 1 == pos + esc_str(w).len() + 1) by {
                    lemma_skip_decomp(s@, pos as int, cur + 1);
                    lemma_qstr_unique(out@, w, s@.skip(cur + 1), rest);
                }
            }
            return Some((out, cur + 1));
        }
        if c == '\\' {
            if cur + 1 >= n {
                proof {
                    assert forall|w: Seq<char>, rest: Seq<char>|
                        !(s@.skip(pos as int) == #[trigger] (esc_str(w) + seq!['"'] + rest)) by {
                        if s@.skip(pos as int) == esc_str(w) + seq!['"'] + rest {
                            lemma_skip_decomp(s@, pos as int, cur as int);
                            lemma_esc_align(out@, s@.skip(cur as int), w, rest);
                            let w2 = choose|w2: Seq<char>|
                                w == out@ + w2 && s@.skip(cur as int) == #[trigger] esc_str(w2)
                                    + seq!['"'] + rest;
                            assert(s@.skip(cur as int).len() == 1);
                            assert(s@.skip(cur as int)[0] == s@[cur as int]);
                            if w2.len() == 0 {
                                assert(esc_str(w2) == Seq::<char>::empty());
                                assert((esc_str(w2) + seq!['"'] + rest)[0] == '"');
                                assert(false);
                            } else {
                                assert(esc_str(w2) == esc_char(w2[0]) + esc_str(w2.drop_first()));
                                assert((esc_str(w2) + seq!['"'] + rest)[0] == esc_char(w2[0])[0]);
                                assert(esc_char(w2[0]).len() == 2);
                                assert(s@.skip(cur as int).len() >= 3);
                                assert(false);
                            }
                        }
                    }
                }
                return None;
            }
            let c2 = s.get_char(cur + 1);
            if c2 == '"' || c2 == '\\' {
                proof {
                    lemma_esc_str_push(out@, c2);
                    assert(esc_char(c2) =~= seq!['\\', c2]);
                    assert(s@.subrange(pos as int, cur + 2) =~= s@.subrange(pos as int, cur as int)
                        + seq![s@[cur as int], s@[cur + 1]]);
                    assert(seq![s@[cur as int], s@[cur + 1]] =~= esc_char(c2));
                }
                push_char(&mut out, c2);
                cur = cur + 2;
            } else {
                proof {
                    assert forall|w: Seq<char>, rest: Seq<char>|
                        !(s@.skip(pos as int) == #[trigger] (esc_str(w) + seq!['"'] + rest)) by {
                        if s@.skip(pos as int) == esc_str(w) + seq!['"'] + rest {
                            lemma_skip_decomp(s@, pos as int, cur as int);
                            lemma_esc_align(out@, s@.skip(cur as int), w, rest);
                            let w2 = choose|w2: Seq<char>|
                                w == out@ + w2 && s@.skip(cur as int) == #[trigger] esc_str(w2)
                                    + seq!['"'] + rest;
                            assert(s@.skip(cur as int)[0] == s@[cur as int]);
                            assert(s@.skip(cur as int)[1] == s@[cur + 1]);
                            if w2.len() == 0 {
                                assert(esc_str(w2) == Seq::<char>::empty());
                                assert((esc_str(w2) + seq!['"'] + rest)[0] == '"');
                                assert(false);
                            } else {
                                assert(esc_str(w2) == esc_char(w2[0]) + esc_str(w2.drop_first()));
                                assert((esc_str(w2) + seq!['"'] + rest)[0] == esc_char(w2[0])[0]);
                                assert(esc_char(w2[0]).len() == 2);
                                assert(esc_char(w2[0])[1] == w2[0]);
                                assert((esc_str(w2) + seq!['"'] + rest)[1] == esc_char(w2[0])[1]);
                                assert(w2[0] == '"' || w2[0] == '\\');
                                assert(false);
                            }
                        }
                    }
                }
                return None;
            }
        } else {
            proof {
                lemma_esc_str_push(out@, c);
                assert(esc_char(c) =~= seq![c]);
                assert(s@.subrange(pos as int, cur + 1) =~= s@.subrange(pos as int, cur as int).push(
                    s@[cur as int],
                ));
            }
            push_char(&mut out, c);
            cur = cur + 1;
        }
    }
    proof {
        assert forall|w: Seq<char>, rest: Seq<char>|
            !(s@.skip(pos as int) == #[trigger] (esc_str(w) + seq!['"'] + rest)) by {
            if s@.skip(pos as int) == esc_str(w) + seq!['"'] + rest {
                lemma_skip_decomp(s@, pos as int, cur as int);
                lemma_esc_align(out@, s@.skip(cur as int), w, rest);
                let w2 = choose|w2: Seq<char>|
                    w == out@ + w2 && s@.skip(cur as int) == #[trigger] esc_str(w2) + seq!['"']
                        + rest;
                assert(s@.skip(cur as int).len() == 0);
                assert((esc_str(w2) + seq!['"'] + rest).len() >= 1);
                assert(false);
            }
        }
    }
    None
}

/// The text of a configuration record, regrouped so that each field's
/// piece stands first in what remains for the reader at that field.
proof fn lemma_enc_config_split(c: ConfigV, rest: Seq<char>)
    ensures
        enc_config(c) + rest == "{\"config_num\":"@ + (dec_rep(c.config_num as nat)
            + (",\"max_power\":"@ + (dec_rep(c.max_power as nat) + (",\"internal_powered\":"@
            + (bool_rep(c.internal_powered) + (",\"remote_wakeup\":"@ + (bool_rep(c.remote_wakeup)
            + (",\"config_str\":\""@ + ((esc_str(c.config_str) + seq!['"']) + ("}"@
            + rest)))))))))),
{
    let u12 = rest;
    vstd::seq_lib::lemma_concat_associative((((((((((("{\"config_num\":"@ + dec_rep(c.config_num as nat)) + ",\"max_power\":"@) + dec_rep(c.max_power as nat)) + ",\"internal_powered\":"@) + bool_rep(c.internal_powered)) + ",\"remote_wakeup\":"@) + bool_rep(c.remote_wakeup)) + ",\"config_str\":\""@) + esc_str(c.config_str)) + seq!['"']), "}"@, u12);
    let u11 = "}"@ + u12;
    vstd::seq_lib::lemma_concat_associative(((((((((("{\"config_num\":"@ + dec_rep(c.config_num as nat)) + ",\"max_power\":"@) + dec_rep(c.max_power as nat)) + ",\"internal_powered\":"@) + bool_rep(c.internal_powered)) + ",\"remote_wakeup\":"@) + bool_rep(c.remote_wakeup)) + ",\"config_str\":\""@) + esc_str(c.config_str)), seq!['"'], u11);
    let u10 = seq!['"'] + u11;
    vstd::seq_lib::lemma_concat_associative((((((((("{\"config_num\":"@ + dec_rep(c.config_num as nat)) + ",\"max_power\":"@) + dec_rep(c.max_power as nat)) + ",\"internal_powered\":"@) + bool_rep(c.internal_powered)) + ",\"remote_wakeup\":"@) + bool_rep(c.remote_wakeup)) + ",\"config_str\":\""@), esc_str(c.config_str), u10);
    let u9 = esc_str(c.config_str) + u10;
    vstd::seq_lib::lemma_concat_associative(((((((("{\"config_num\":"@ + dec_rep(c.config_num as nat)) + ",\"max_power\":"@) + dec_rep(c.max_power as nat)) + ",\"internal_powered\":"@) + bool_rep(c.internal_powered)) + ",\"remote_wakeup\":"@) + bool_rep(c.remote_wakeup)), ",\"config_str\":\""@, u9);
    let u8 = ",\"config_str\":\""@ + u9;
    vstd::seq_lib::lemma_concat_associative((((((("{\"config_num\":"@ + dec_rep(c.config_num as nat)) + ",\"max_power\":"@) + dec_rep(c.max_power as nat)) + ",\"internal_powered\":"@) + bool_rep(c.internal_powered)) + ",\"remote_wakeup\":"@), bool_rep(c.remote_wakeup), u8);
    let u7 = bool_rep(c.remote_wakeup) + u8;
    vstd::seq_lib::lemma_concat_associative(((((("{\"config_num\":"@ + dec_rep(c.config_num as nat)) + ",\"max_power\":"@) + dec_rep(c.max_power as nat)) + ",\"internal_powered\":"@) + bool_rep(c.internal_powered)), ",\"remote_wakeup\":"@, u7);
    let u6 = ",\"remote_wakeup\":"@ + u7;
    vstd::seq_lib::lemma_concat_associative((((("{\"config_num\":"@ + dec_rep(c.config_num as nat)) + ",\"max_power\":"@) + dec_rep(c.max_power as nat)) + ",\"internal_powered\":"@), bool_rep(c.internal_powered), u6);
    let u5 = bool_rep(c.internal_powered) + u6;
    vstd::seq_lib::lemma_concat_associative(((("{\"config_num\":"@ + dec_rep(c.config_num as nat)) + ",\"max_power\":"@) + dec_rep(c.max_power as nat)), ",\"internal_powered\":"@, u5);
    let u4 = ",\"internal_powered\":"@ + u5;
    vstd::seq_lib::lemma_concat_associative((("{\"config_num\":"@ + dec_rep(c.config_num as nat)) + ",\"max_power\":"@), dec_rep(c.max_power as nat), u4);
    let u3 = dec_rep(c.max_power as nat) + u4;
    vstd::seq_lib::lemma_concat_associative(("{\"config_num\":"@ + dec_rep(c.config_num as nat)), ",\"max_power\":"@, u3);
    let u2 = ",\"max_power\":"@ + u3;
    vstd::seq_lib::lemma_concat_associative("{\"config_num\":"@, dec_rep(c.config_num as nat), u2);
    let u1 = dec_rep(c.config_num as nat) + u2;
    vstd::seq_lib::lemma_concat_associative(esc_str(c.config_str), seq!['"'], u11);
    assert(enc_config(c) + rest == "{\"config_num\":"@ + u1);
    assert(u1 == cfg_tail_1(c, rest));
}

/// The tails of a configuration record's text from each field on, used to
/// walk the text field by field.
spec fn cfg_tail_6(c: ConfigV, rest: Seq<char>) -> Seq<char> {
    "}"@ + rest
}

spec fn cfg_tail_5(c: ConfigV, rest: Seq<char>) -> Seq<char> {
    (esc_str(c.config_str) + seq!['"']) + cfg_tail_6(c, rest)
}

spec fn cfg_tail_5b(c: ConfigV, rest: Seq<char>) -> Seq<char> {
    ",\"config_str\":\""@ + cfg_tail_5(c, rest)
}

spec fn cfg_tail_4(c: ConfigV, rest: Seq<char>) -> Seq<char> {
    bool_rep(c.remote_wakeup) + cfg_tail_5b(c, rest)
}

spec fn cfg_tail_4b(c: ConfigV, rest: Seq<char>) -> Seq<char> {
    ",\"remote_wakeup\":"@ + cfg_tail_4(c, rest)
}

spec fn cfg_tail_3(c: ConfigV, rest: Seq<char>) -> Seq<char> {
    bool_rep(c.internal_powered) + cfg_tail_4b(c, rest)
}

spec fn cfg_tail_3b(c: ConfigV, rest: Seq<char>) -> Seq<char> {
    ",\"internal_powered\":"@ + cfg_tail_3(c, rest)
}

spec fn cfg_tail_2(c: ConfigV, rest: Seq<char>) -> Seq<char> {
    dec_rep(c.max_power as nat) + cfg_tail_3b(c, rest)
}

spec fn cfg_tail_2b(c: ConfigV, rest: Seq<char>) -> Seq<char> {
    ",\"max_power\":"@ + cfg_tail_2(c, rest)
}

spec fn cfg_tail_1(c: ConfigV, rest: Seq<char>) -> Seq<char> {
    dec_rep(c.config_num as nat) + cfg_tail_2b(c, rest)
}

proof fn lemma_cfg_boundaries(c: ConfigV, rest: Seq<char>)
    ensures
        enc_config(c) + rest == "{\"config_num\":"@ + cfg_tail_1(c, rest),
        !is_digit(cfg_tail_2b(c, rest)[0]),
        !is_digit(cfg_tail_3b(c, rest)[0]),
        cfg_tail_2b(c, rest).len() > 0,
        cfg_tail_3b(c, rest).len() > 0,
{
    lemma_enc_config_split(c, rest);
    reveal_strlit(",\"max_power\":");
    reveal_strlit(",\"internal_powered\":");
    assert(cfg_tail_2b(c, rest)[0] == ',');
    assert(cfg_tail_3b(c, rest)[0] == ',');
}

/// A configuration record's text determines the record: two readings of
/// one text agree.
proof fn lemma_enc_config_unique(c1: ConfigV, c2: ConfigV, r1: Seq<char>, r2: Seq<char>)
    requires
        enc_config(c1) + r1 == enc_config(c2) + r2,
    ensures
        c1 == c2,
        r1 == r2,
{
    lemma_cfg_boundaries(c1, r1);
    lemma_cfg_boundaries(c2, r2);
    lemma_prefix_cancel("{\"config_num\":"@, cfg_tail_1(c1, r1), cfg_tail_1(c2, r2));
    lemma_num_unique(
        c1.config_num as nat,
        c2.config_num as nat,
        cfg_tail_2b(c1, r1),
        cfg_tail_2b(c2, r2),
    );
    lemma_prefix_cancel(",\"max_power\":"@, cfg_tail_2(c1, r1), cfg_tail_2(c2, r2));
    lemma_num_unique(
        c1.max_power as nat,
        c2.max_power as nat,
        cfg_tail_3b(c1, r1),
        cfg_tail_3b(c2, r2),
    );
    lemma_prefix_cancel(",\"internal_powered\":"@, cfg_tail_3(c1, r1), cfg_tail_3(c2, r2));
    lemma_bool_unique(
        c1.internal_powered,
        c2.internal_powered,
        cfg_tail_4b(c1, r1),
        cfg_tail_4b(c2, r2),
    );
    lemma_prefix_cancel(",\"remote_wakeup\":"@, cfg_tail_4(c1, r1), cfg_tail_4(c2, r2));
    lemma_bool_unique(
        c1.remote_wakeup,
        c2.remote_wakeup,
        cfg_tail_5b(c1, r1),
        cfg_tail_5b(c2, r2),
    );
    lemma_prefix_cancel(",\"config_str\":\""@, cfg_tail_5(c1, r1), cfg_tail_5(c2, r2));
    lemma_qstr_unique(
        c1.config_str,
        c2.config_str,
        cfg_tail_6(c1, r1),
        cfg_tail_6(c2, r2),
    );
    lemma_prefix_cancel("}"@, r1, r2);
    assert(c1 =~= c2);
}

proof fn lemma_enc_config_first(c: ConfigV)
    ensures
        enc_config(c).len() > 0,
        enc_config(c)[0] == '{',
{
    reveal_strlit("{\"config_num\":");
    lemma_enc_config_split(c, Seq::empty());
    broadcast use Seq::add_empty_right;

    assert((enc_config(c) + Seq::<char>::empty())[0] == "{\"config_num\":"@[0]);
}

/// A configuration list closed by its bracket determines the list: two
/// readings of one text agree.
proof fn lemma_enc_configs_rest_unique(a: Seq<ConfigV>, b: Seq<ConfigV>, r1: Seq<char>, r2: Seq<
    char,
>)
    requires
        (enc_configs_rest(a) + seq![']']) + r1 == (enc_configs_rest(b) + seq![']']) + r2,
    ensures
        a == b,
        r1 == r2,
    decreases a.len(),
{
    broadcast use Seq::add_empty_left, Seq::add_empty_right;

    let m = seq![','];
    let q = seq![']'];
    if a.len() == 0 && b.len() == 0 {
        lemma_prefix_cancel(q, r1, r2);
        assert(a =~= b);
    } else if a.len() == 0 {
        assert(((enc_configs_rest(a) + q) + r1)[0] == ']');
        let eb = enc_config(b[0]);
        lemma_enc_config_first(b[0]);
        assert(enc_configs_rest(b) == (m + eb) + enc_configs_rest(b.drop_first()));
        assert(enc_configs_rest(b)[0] == ',');
        assert(((enc_configs_rest(b) + q) + r2)[0] == ',');
        assert(false);
    } else if b.len() == 0 {
        assert(((enc_configs_rest(b) + q) + r2)[0] == ']');
        let ea = enc_config(a[0]);
        assert(enc_configs_rest(a) == (m + ea) + enc_configs_rest(a.drop_first()));
        assert(enc_configs_rest(a)[0] == ',');
        assert(((enc_configs_rest(a) + q) + r1)[0] == ',');
        assert(false);
    } else {
        let ea = enc_config(a[0]);
        let eb = enc_config(b[0]);
        let ra = enc_configs_rest(a.drop_first());
        let rb = enc_configs_rest(b.drop_first());
        assert(enc_configs_rest(a) == m + ea + ra);
        assert(enc_configs_rest(b) == m + eb + rb);
        assert(((m + ea + ra) + q) + r1 == m + (ea + ((ra + q) + r1))) by {
            vstd::seq_lib::lemma_concat_associative(m, ea, ra);
            vstd::seq_lib::lemma_concat_associative(m, ea + ra, q);
            vstd::seq_lib::lemma_concat_associative(m, (ea + ra) + q, r1);
            vstd::seq_lib::lemma_concat_associative(ea, ra, q);
            vstd::seq_lib::lemma_concat_associative(ea, ra + q, r1);
        }
        assert(((m + eb + rb) + q) + r2 == m + (eb + ((rb + q) + r2))) by {
            vstd::seq_lib::lemma_concat_associative(m, eb, rb);
            vstd::seq_lib::lemma_concat_associative(m, eb + rb, q);
            vstd::seq_lib::lemma_concat_associative(m, (eb + rb) + q, r2);
            vstd::seq_lib::lemma_concat_associative(eb, rb, q);
            vstd::seq_lib::lemma_concat_associative(eb, rb + q, r2);
        }
        lemma_prefix_cancel(m, ea + ((ra + q) + r1), eb + ((rb + q) + r2));
        lemma_enc_config_unique(a[0], b[0], (ra + q) + r1, (rb + q) + r2);
        lemma_enc_configs_rest_unique(a.drop_first(), b.drop_first(), r1, r2);
        assert(a.len() == b.len());
        assert forall|i: int| 0 <= i < a.len() implies a[i] == b[i] by {
            if i > 0 {
                assert(a[i] == a.drop_first()[i - 1]);
                assert(b[i] == b.drop_first()[i - 1]);
            }
        }
        assert(a =~= b);
    }
}

/// A configuration list closed by its bracket determines the list.
proof fn lemma_enc_configs_unique(a: Seq<ConfigV>, b: Seq<ConfigV>, r1: Seq<char>, r2: Seq<char>)
    requires
        (enc_configs(a) + seq![']']) + r1 == (enc_configs(b) + seq![']']) + r2,
    ensures
        a == b,
        r1 == r2,
{
    broadcast use Seq::add_empty_left, Seq::add_empty_right;

    let q = seq![']'];
    if a.len() == 0 && b.len() == 0 {
        lemma_prefix_cancel(q, r1, r2);
        assert(a =~= b);
    } else if a.len() == 0 {
        assert(((enc_configs(a) + q) + r1)[0] == ']');
        lemma_enc_config_first(b[0]);
        assert(enc_configs(b) == enc_config(b[0]) + enc_configs_rest(b.drop_first()));
        assert(enc_configs(b)[0] == '{');
        assert(((enc_configs(b) + q) + r2)[0] == '{');
        assert(false);
    } else if b.len() == 0 {
        assert(((enc_configs(b) + q) + r2)[0] == ']');
        lemma_enc_config_first(a[0]);
        assert(enc_configs(a) == enc_config(a[0]) + enc_configs_rest(a.drop_first()));
        assert(enc_configs(a)[0] == '{');
        assert(((enc_configs(a) + q) + r1)[0] == '{');
        assert(false);
    } else {
        let ea = enc_config(a[0]);
        let eb = enc_config(b[0]);
        let ra = enc_configs_rest(a.drop_first());
        let rb = enc_configs_rest(b.drop_first());
        assert(((ea + ra) + q) + r1 == ea + ((ra + q) + r1)) by {
            vstd::seq_lib::lemma_concat_associative(ea, ra, q);
            vstd::seq_lib::lemma_concat_associative(ea, ra + q, r1);
        }
        assert(((eb + rb) + q) + r2 == eb + ((rb + q) + r2)) by {
            vstd::seq_lib::lemma_concat_associative(eb, rb, q);
            vstd::seq_lib::lemma_concat_associative(eb, rb + q, r2);
        }
        lemma_enc_config_unique(a[0], b[0], (ra + q) + r1, (rb + q) + r2);
        lemma_enc_configs_rest_unique(a.drop_first(), b.drop_first(), r1, r2);
        assert(a.len() == b.len());
        assert forall|i: int| 0 <= i < a.len() implies a[i] == b[i] by {
            if i > 0 {
                assert(a[i] == a.drop_first()[i - 1]);
                assert(b[i] == b.drop_first()[i - 1]);
            }
        }
        assert(a =~= b);
    }
}

/// The tails of a device record's text from each field on.
spec fn dev_tail_15(d: DevV, rest: Seq<char>) -> Seq<char> {
    "}"@ + rest
}

spec fn dev_tail_14(d: DevV, rest: Seq<char>) -> Seq<char> {
    (enc_configs(d.configs) + seq![']']) + dev_tail_15(d, rest)
}

spec fn dev_tail_14b(d: DevV, rest: Seq<char>) -> Seq<char> {
    ",\"configs\":["@ + dev_tail_14(d, rest)
}

spec fn dev_tail_13(d: DevV, rest: Seq<char>) -> Seq<char> {
    dec_rep(d.d_product_id as nat) + dev_tail_14b(d, rest)
}

spec fn dev_tail_13b(d: DevV, rest: Seq<char>) -> Seq<char> {
    ",\"d_product_id\":"@ + dev_tail_13(d, rest)
}

spec fn dev_tail_12(d: DevV, rest: Seq<char>) -> Seq<char> {
    dec_rep(d.d_vendor_id as nat) + dev_tail_13b(d, rest)
}

spec fn dev_tail_12b(d: DevV, rest: Seq<char>) -> Seq<char> {
    ",\"d_vendor_id\":"@ + dev_tail_12(d, rest)
}

spec fn dev_tail_11(d: DevV, rest: Seq<char>) -> Seq<char> {
    dec_rep(d.d_proto as nat) + dev_tail_12b(d, rest)
}

spec fn dev_tail_11b(d: DevV, rest: Seq<char>) -> Seq<char> {
    ",\"d_proto\":"@ + dev_tail_11(d, rest)
}

spec fn dev_tail_10(d: DevV, rest: Seq<char>) -> Seq<char> {
    dec_rep(d.d_subclass as nat) + dev_tail_11b(d, rest)
}

spec fn dev_tail_10b(d: DevV, rest: Seq<char>) -> Seq<char> {
    ",\"d_subclass\":"@ + dev_tail_10(d, rest)
}

spec fn dev_tail_9(d: DevV, rest: Seq<char>) -> Seq<char> {
    dec_rep(d.d_class as nat) + dev_tail_10b(d, rest)
}

spec fn dev_tail_9b(d: DevV, rest: Seq<char>) -> Seq<char> {
    ",\"d_class\":"@ + dev_tail_9(d, rest)
}

spec fn dev_tail_8(d: DevV, rest: Seq<char>) -> Seq<char> {
    dec_rep(d.d_version_sub as nat) + dev_tail_9b(d, rest)
}

spec fn dev_tail_8b(d: DevV, rest: Seq<char>) -> Seq<char> {
    ",\"d_version_sub\":"@ + dev_tail_8(d, rest)
}

spec fn dev_tail_7(d: DevV, rest: Seq<char>) -> Seq<char> {
    dec_rep(d.d_version_minor as nat) + dev_tail_8b(d, rest)
}

spec fn dev_tail_7b(d: DevV, rest: Seq<char>) -> Seq<char> {
    ",\"d_version_minor\":"@ + dev_tail_7(d, rest)
}

spec fn dev_tail_6(d: DevV, rest: Seq<char>) -> Seq<char> {
    dec_rep(d.d_version_major as nat) + dev_tail_7b(d, rest)
}

spec fn dev_tail_6b(d: DevV, rest: Seq<char>) -> Seq<char> {
    ",\"d_version_major\":"@ + dev_tail_6(d, rest)
}

spec fn dev_tail_5(d: DevV, rest: Seq<char>) -> Seq<char> {
    dec_rep(d.address as nat) + dev_tail_6b(d, rest)
}

spec fn dev_tail_5b(d: DevV, rest: Seq<char>) -> Seq<char> {
    ",\"address\":"@ + dev_tail_5(d, rest)
}

spec fn dev_tail_4(d: DevV, rest: Seq<char>) -> Seq<char> {
    dec_rep(d.bus_number as nat) + dev_tail_5b(d, rest)
}

spec fn dev_tail_4b(d: DevV, rest: Seq<char>) -> Seq<char> {
    ",\"bus_number\":"@ + dev_tail_4(d, rest)
}

spec fn dev_tail_3(d: DevV, rest: Seq<char>) -> Seq<char> {
    (esc_str(d.serial_num) + seq!['"']) + dev_tail_4b(d, rest)
}

spec fn dev_tail_3b(d: DevV, rest: Seq<char>) -> Seq<char> {
    ",\"serial_num\":\""@ + dev_tail_3(d, rest)
}

spec fn dev_tail_2(d: DevV, rest: Seq<char>) -> Seq<char> {
    (esc_str(d.manufacturer) + seq!['"']) + dev_tail_3b(d, rest)
}

spec fn dev_tail_2b(d: DevV, rest: Seq<char>) -> Seq<char> {
    ",\"manufacturer\":\""@ + dev_tail_2(d, rest)
}

spec fn dev_tail_1(d: DevV, rest: Seq<char>) -> Seq<char> {
    (esc_str(d.product) + seq!['"']) + dev_tail_2b(d, rest)
}

/// The text of a device record, regrouped so that each field's piece
/// stands first in what remains for the reader at that field.
proof fn lemma_enc_dev_split(d: DevV, rest: Seq<char>)
    ensures
        enc_dev(d) + rest == "{\"product\":\""@ + dev_tail_1(d, rest),
{
    let q = seq![']'];
    let t30 = dev_tail_15(d, rest);
    reveal_strlit("]}");
    reveal_strlit("}");
    assert("]}"@ =~= q + "}"@);
    let ec = enc_configs(d.configs);
    let p_full = ((((((((((((((((((((((((((((("{\"product\":\""@ + esc_str(d.product)) + seq!['"']) + ",\"manufacturer\":\""@) + esc_str(d.manufacturer)) + seq!['"']) + ",\"serial_num\":\""@) + esc_str(d.serial_num)) + seq!['"']) + ",\"bus_number\":"@) + dec_rep(d.bus_number as nat)) + ",\"address\":"@) + dec_rep(d.address as nat)) + ",\"d_version_major\":"@) + dec_rep(d.d_version_major as nat)) + ",\"d_version_minor\":"@) + dec_rep(d.d_version_minor as nat)) + ",\"d_version_sub\":"@) + dec_rep(d.d_version_sub as nat)) + ",\"d_class\":"@) + dec_rep(d.d_class as nat)) + ",\"d_subclass\":"@) + dec_rep(d.d_subclass as nat)) + ",\"d_proto\":"@) + dec_rep(d.d_proto as nat)) + ",\"d_vendor_id\":"@) + dec_rep(d.d_vendor_id as nat)) + ",\"d_product_id\":"@) + dec_rep(d.d_product_id as nat)) + ",\"configs\":["@);
    assert(enc_dev(d) == (p_full + ec) + "]}"@);
    vstd::seq_lib::lemma_concat_associative(p_full + ec, "]}"@, rest);
    vstd::seq_lib::lemma_concat_associative(q, "}"@, rest);
    assert("]}"@ + rest == q + t30);
    vstd::seq_lib::lemma_concat_associative(p_full, ec, q + t30);
    vstd::seq_lib::lemma_concat_associative(ec, q, t30);
    assert(ec + (q + t30) == dev_tail_14(d, rest));
    assert(enc_dev(d) + rest == p_full + dev_tail_14(d, rest));
    let u30 = dev_tail_14(d, rest);
    vstd::seq_lib::lemma_concat_associative((((((((((((((((((((((((((((("{\"product\":\""@ + esc_str(d.product)) + seq!['"']) + ",\"manufacturer\":\""@) + esc_str(d.manufacturer)) + seq!['"']) + ",\"serial_num\":\""@) + esc_str(d.serial_num)) + seq!['"']) + ",\"bus_number\":"@) + dec_rep(d.bus_number as nat)) + ",\"address\":"@) + dec_rep(d.address as nat)) + ",\"d_version_major\":"@) + dec_rep(d.d_version_major as nat)) + ",\"d_version_minor\":"@) + dec_rep(d.d_version_minor as nat)) + ",\"d_version_sub\":"@) + dec_rep(d.d_version_sub as nat)) + ",\"d_class\":"@) + dec_rep(d.d_class as nat)) + ",\"d_subclass\":"@) + dec_rep(d.d_subclass as nat)) + ",\"d_proto\":"@) + dec_rep(d.d_proto as nat)) + ",\"d_vendor_id\":"@) + dec_rep(d.d_vendor_id as nat)) + ",\"d_product_id\":"@) + dec_rep(d.d_product_id as nat)), ",\"configs\":["@, u30);
    let u29 = ",\"configs\":["@ + u30;
    vstd::seq_lib::lemma_concat_associative(((((((((((((((((((((((((((("{\"product\":\""@ + esc_str(d.product)) + seq!['"']) + ",\"manufacturer\":\""@) + esc_str(d.manufacturer)) + seq!['"']) + ",\"serial_num\":\""@) + esc_str(d.serial_num)) + seq!['"']) + ",\"bus_number\":"@) + dec_rep(d.bus_number as nat)) + ",\"address\":"@) + dec_rep(d.address as nat)) + ",\"d_version_major\":"@) + dec_rep(d.d_version_major as nat)) + ",\"d_version_minor\":"@) + dec_rep(d.d_version_minor as nat)) + ",\"d_version_sub\":"@) + dec_rep(d.d_version_sub as nat)) + ",\"d_class\":"@) + dec_rep(d.d_class as nat)) + ",\"d_subclass\":"@) + dec_rep(d.d_subclass as nat)) + ",\"d_proto\":"@) + dec_rep(d.d_proto as nat)) + ",\"d_vendor_id\":"@) + dec_rep(d.d_vendor_id as nat)) + ",\"d_product_id\":"@), dec_rep(d.d_product_id as nat), u29);
    let u28 = dec_rep(d.d_product_id as nat) + u29;
    vstd::seq_lib::lemma_concat_associative((((((((((((((((((((((((((("{\"product\":\""@ + esc_str(d.product)) + seq!['"']) + ",\"manufacturer\":\""@) + esc_str(d.manufacturer)) + seq!['"']) + ",\"serial_num\":\""@) + esc_str(d.serial_num)) + seq!['"']) + ",\"bus_number\":"@) + dec_rep(d.bus_number as nat)) + ",\"address\":"@) + dec_rep(d.address as nat)) + ",\"d_version_major\":"@) + dec_rep(d.d_version_major as nat)) + ",\"d_version_minor\":"@) + dec_rep(d.d_version_minor as nat)) + ",\"d_version_sub\":"@) + dec_rep(d.d_version_sub as nat)) + ",\"d_class\":"@) + dec_rep(d.d_class as nat)) + ",\"d_subclass\":"@) + dec_rep(d.d_subclass as nat)) + ",\"d_proto\":"@) + dec_rep(d.d_proto as nat)) + ",\"d_vendor_id\":"@) + dec_rep(d.d_vendor_id as nat)), ",\"d_product_id\":"@, u28);
    let u27 = ",\"d_product_id\":"@ + u28;
    vstd::seq_lib::lemma_concat_associative(((((((((((((((((((((((((("{\"product\":\""@ + esc_str(d.product)) + seq!['"']) + ",\"manufacturer\":\""@) + esc_str(d.manufacturer)) + seq!['"']) + ",\"serial_num\":\""@) + esc_str(d.serial_num)) + seq!['"']) + ",\"bus_number\":"@) + dec_rep(d.bus_number as nat)) + ",\"address\":"@) + dec_rep(d.address as nat)) + ",\"d_version_major\":"@) + dec_rep(d.d_version_major as nat)) + ",\"d_version_minor\":"@) + dec_rep(d.d_version_minor as nat)) + ",\"d_version_sub\":"@) + dec_rep(d.d_version_sub as nat)) + ",\"d_class\":"@) + dec_rep(d.d_class as nat)) + ",\"d_subclass\":"@) + dec_rep(d.d_subclass as nat)) + ",\"d_proto\":"@) + dec_rep(d.d_proto as nat)) + ",\"d_vendor_id\":"@), dec_rep(d.d_vendor_id as nat), u27);
    let u26 = dec_rep(d.d_vendor_id as nat) + u27;
    vstd::seq_lib::lemma_concat_associative((((((((((((((((((((((((("{\"product\":\""@ + esc_str(d.product)) + seq!['"']) + ",\"manufacturer\":\""@) + esc_str(d.manufacturer)) + seq!['"']) + ",\"serial_num\":\""@) + esc_str(d.serial_num)) + seq!['"']) + ",\"bus_number\":"@) + dec_rep(d.bus_number as nat)) + ",\"address\":"@) + dec_rep(d.address as nat)) + ",\"d_version_major\":"@) + dec_rep(d.d_version_major as nat)) + ",\"d_version_minor\":"@) + dec_rep(d.d_version_minor as nat)) + ",\"d_version_sub\":"@) + dec_rep(d.d_version_sub as nat)) + ",\"d_class\":"@) + dec_rep(d.d_class as nat)) + ",\"d_subclass\":"@) + dec_rep(d.d_subclass as nat)) + ",\"d_proto\":"@) + dec_rep(d.d_proto as nat)), ",\"d_vendor_id\":"@, u26);
    let u25 = ",\"d_vendor_id\":"@ + u26;
    vstd::seq_lib::lemma_concat_associative(((((((((((((((((((((((("{\"product\":\""@ + esc_str(d.product)) + seq!['"']) + ",\"manufacturer\":\""@) + esc_str(d.manufacturer)) + seq!['"']) + ",\"serial_num\":\""@) + esc_str(d.serial_num)) + seq!['"']) + ",\"bus_number\":"@) + dec_rep(d.bus_number as nat)) + ",\"address\":"@) + dec_rep(d.address as nat)) + ",\"d_version_major\":"@) + dec_rep(d.d_version_major as nat)) + ",\"d_version_minor\":"@) + dec_rep(d.d_version_minor as nat)) + ",\"d_version_sub\":"@) + dec_rep(d.d_version_sub as nat)) + ",\"d_class\":"@) + dec_rep(d.d_class as nat)) + ",\"d_subclass\":"@) + dec_rep(d.d_subclass as nat)) + ",\"d_proto\":"@), dec_rep(d.d_proto as nat), u25);
    let u24 = dec_rep(d.d_proto as nat) + u25;
    vstd::seq_lib::lemma_concat_associative((((((((((((((((((((((("{\"product\":\""@ + esc_str(d.product)) + seq!['"']) + ",\"manufacturer\":\""@) + esc_str(d.manufacturer)) + seq!['"']) + ",\"serial_num\":\""@) + esc_str(d.serial_num)) + seq!['"']) + ",\"bus_number\":"@) + dec_rep(d.bus_number as nat)) + ",\"address\":"@) + dec_rep(d.address as nat)) + ",\"d_version_major\":"@) + dec_rep(d.d_version_major as nat)) + ",\"d_version_minor\":"@) + dec_rep(d.d_version_minor as nat)) + ",\"d_version_sub\":"@) + dec_rep(d.d_version_sub as nat)) + ",\"d_class\":"@) + dec_rep(d.d_class as nat)) + ",\"d_subclass\":"@) + dec_rep(d.d_subclass as nat)), ",\"d_proto\":"@, u24);
    let u23 = ",\"d_proto\":"@ + u24;
    vstd::seq_lib::lemma_concat_associative(((((((((((((((((((((("{\"product\":\""@ + esc_str(d.product)) + seq!['"']) + ",\"manufacturer\":\""@) + esc_str(d.manufacturer)) + seq!['"']) + ",\"serial_num\":\""@) + esc_str(d.serial_num)) + seq!['"']) + ",\"bus_number\":"@) + dec_rep(d.bus_number as nat)) + ",\"address\":"@) + dec_rep(d.address as nat)) + ",\"d_version_major\":"@) + dec_rep(d.d_version_major as nat)) + ",\"d_version_minor\":"@) + dec_rep(d.d_version_minor as nat)) + ",\"d_version_sub\":"@) + dec_rep(d.d_version_sub as nat)) + ",\"d_class\":"@) + dec_rep(d.d_class as nat)) + ",\"d_subclass\":"@), dec_rep(d.d_subclass as nat), u23);
    let u22 = dec_rep(d.d_subclass as nat) + u23;
    vstd::seq_lib::lemma_concat_associative((((((((((((((((((((("{\"product\":\""@ + esc_str(d.product)) + seq!['"']) + ",\"manufacturer\":\""@) + esc_str(d.manufacturer)) + seq!['"']) + ",\"serial_num\":\""@) + esc_str(d.serial_num)) + seq!['"']) + ",\"bus_number\":"@) + dec_rep(d.bus_number as nat)) + ",\"address\":"@) + dec_rep(d.address as nat)) + ",\"d_version_major\":"@) + dec_rep(d.d_version_major as nat)) + ",\"d_version_minor\":"@) + dec_rep(d.d_version_minor as nat)) + ",\"d_version_sub\":"@) + dec_rep(d.d_version_sub as nat)) + ",\"d_class\":"@) + dec_rep(d.d_class as nat)), ",\"d_subclass\":"@, u22);
    let u21 = ",\"d_subclass\":"@ + u22;
    vstd::seq_lib::lemma_concat_associative(((((((((((((((((((("{\"product\":\""@ + esc_str(d.product)) + seq!['"']) + ",\"manufacturer\":\""@) + esc_str(d.manufacturer)) + seq!['"']) + ",\"serial_num\":\""@) + esc_str(d.serial_num)) + seq!['"']) + ",\"bus_number\":"@) + dec_rep(d.bus_number as nat)) + ",\"address\":"@) + dec_rep(d.address as nat)) + ",\"d_version_major\":"@) + dec_rep(d.d_version_major as nat)) + ",\"d_version_minor\":"@) + dec_rep(d.d_version_minor as nat)) + ",\"d_version_sub\":"@) + dec_rep(d.d_version_sub as nat)) + ",\"d_class\":"@), dec_rep(d.d_class as nat), u21);
    let u20 = dec_rep(d.d_class as nat) + u21;
    vstd::seq_lib::lemma_concat_associative((((((((((((((((((("{\"product\":\""@ + esc_str(d.product)) + seq!['"']) + ",\"manufacturer\":\""@) + esc_str(d.manufacturer)) + seq!['"']) + ",\"serial_num\":\""@) + esc_str(d.serial_num)) + seq!['"']) + ",\"bus_number\":"@) + dec_rep(d.bus_number as nat)) + ",\"address\":"@) + dec_rep(d.address as nat)) + ",\"d_version_major\":"@) + dec_rep(d.d_version_major as nat)) + ",\"d_version_minor\":"@) + dec_rep(d.d_version_minor as nat)) + ",\"d_version_sub\":"@) + dec_rep(d.d_version_sub as nat)), ",\"d_class\":"@, u20);
    let u19 = ",\"d_class\":"@ + u20;
    vstd::seq_lib::lemma_concat_associative(((((((((((((((((("{\"product\":\""@ + esc_str(d.product)) + seq!['"']) + ",\"manufacturer\":\""@) + esc_str(d.manufacturer)) + seq!['"']) + ",\"serial_num\":\""@) + esc_str(d.serial_num)) + seq!['"']) + ",\"bus_number\":"@) + dec_rep(d.bus_number as nat)) + ",\"address\":"@) + dec_rep(d.address as nat)) + ",\"d_version_major\":"@) + dec_rep(d.d_version_major as nat)) + ",\"d_version_minor\":"@) + dec_rep(d.d_version_minor as nat)) + ",\"d_version_sub\":"@), dec_rep(d.d_version_sub as nat), u19);
    let u18 = dec_rep(d.d_version_sub as nat) + u19;
    vstd::seq_lib::lemma_concat_associative((((((((((((((((("{\"product\":\""@ + esc_str(d.product)) + seq!['"']) + ",\"manufacturer\":\""@) + esc_str(d.manufacturer)) + seq!['"']) + ",\"serial_num\":\""@) + esc_str(d.serial_num)) + seq!['"']) + ",\"bus_number\":"@) + dec_rep(d.bus_number as nat)) + ",\"address\":"@) + dec_rep(d.address as nat)) + ",\"d_version_major\":"@) + dec_rep(d.d_version_major as nat)) + ",\"d_version_minor\":"@) + dec_rep(d.d_version_minor as nat)), ",\"d_version_sub\":"@, u18);
    let u17 = ",\"d_version_sub\":"@ + u18;
    vstd::seq_lib::lemma_concat_associative(((((((((((((((("{\"product\":\""@ + esc_str(d.product)) + seq!['"']) + ",\"manufacturer\":\""@) + esc_str(d.manufacturer)) + seq!['"']) + ",\"serial_num\":\""@) + esc_str(d.serial_num)) + seq!['"']) + ",\"bus_number\":"@) + dec_rep(d.bus_number as nat)) + ",\"address\":"@) + dec_rep(d.address as nat)) + ",\"d_version_major\":"@) + dec_rep(d.d_version_major as nat)) + ",\"d_version_minor\":"@), dec_rep(d.d_version_minor as nat), u17);
    let u16 = dec_rep(d.d_version_minor as nat) + u17;
    vstd::seq_lib::lemma_concat_associative((((((((((((((("{\"product\":\""@ + esc_str(d.product)) + seq!['"']) + ",\"manufacturer\":\""@) + esc_str(d.manufacturer)) + seq!['"']) + ",\"serial_num\":\""@) + esc_str(d.serial_num)) + seq!['"']) + ",\"bus_number\":"@) + dec_rep(d.bus_number as nat)) + ",\"address\":"@) + dec_rep(d.address as nat)) + ",\"d_version_major\":"@) + dec_rep(d.d_version_major as nat)), ",\"d_version_minor\":"@, u16);
    let u15 = ",\"d_version_minor\":"@ + u16;
    vstd::seq_lib::lemma_concat_associative(((((((((((((("{\"product\":\""@ + esc_str(d.product)) + seq!['"']) + ",\"manufacturer\":\""@) + esc_str(d.manufacturer)) + seq!['"']) + ",\"serial_num\":\""@) + esc_str(d.serial_num)) + seq!['"']) + ",\"bus_number\":"@) + dec_rep(d.bus_number as nat)) + ",\"address\":"@) + dec_rep(d.address as nat)) + ",\"d_version_major\":"@), dec_rep(d.d_version_major as nat), u15);
    let u14 = dec_rep(d.d_version_major as nat) + u15;
    vstd::seq_lib::lemma_concat_associative((((((((((((("{\"product\":\""@ + esc_str(d.product)) + seq!['"']) + ",\"manufacturer\":\""@) + esc_str(d.manufacturer)) + seq!['"']) + ",\"serial_num\":\""@) + esc_str(d.serial_num)) + seq!['"']) + ",\"bus_number\":"@) + dec_rep(d.bus_number as nat)) + ",\"address\":"@) + dec_rep(d.address as nat)), ",\"d_version_major\":"@, u14);
    let u13 = ",\"d_version_major\":"@ + u14;
    vstd::seq_lib::lemma_concat_associative(((((((((((("{\"product\":\""@ + esc_str(d.product)) + seq!['"']) + ",\"manufacturer\":\""@) + esc_str(d.manufacturer)) + seq!['"']) + ",\"serial_num\":\""@) + esc_str(d.serial_num)) + seq!['"']) + ",\"bus_number\":"@) + dec_rep(d.bus_number as nat)) + ",\"address\":"@), dec_rep(d.address as nat), u13);
    let u12 = dec_rep(d.address as nat) + u13;
    vstd::seq_lib::lemma_concat_associative((((((((((("{\"product\":\""@ + esc_str(d.product)) + seq!['"']) + ",\"manufacturer\":\""@) + esc_str(d.manufacturer)) + seq!['"']) + ",\"serial_num\":\""@) + esc_str(d.serial_num)) + seq!['"']) + ",\"bus_number\":"@) + dec_rep(d.bus_number as nat)), ",\"address\":"@, u12);
    let u11 = ",\"address\":"@ + u12;
    vstd::seq_lib::lemma_concat_associative(((((((((("{\"product\":\""@ + esc_str(d.product)) + seq!['"']) + ",\"manufacturer\":\""@) + esc_str(d.manufacturer)) + seq!['"']) + ",\"serial_num\":\""@) + esc_str(d.serial_num)) + seq!['"']) + ",\"bus_number\":"@), dec_rep(d.bus_number as nat), u11);
    let u10 = dec_rep(d.bus_number as nat) + u11;
    vstd::seq_lib::lemma_concat_associative((((((((("{\"product\":\""@ + esc_str(d.product)) + seq!['"']) + ",\"manufacturer\":\""@) + esc_str(d.manufacturer)) + seq!['"']) + ",\"serial_num\":\""@) + esc_str(d.serial_num)) + seq!['"']), ",\"bus_number\":"@, u10);
    let u9 = ",\"bus_number\":"@ + u10;
    vstd::seq_lib::lemma_concat_associative(((((((("{\"product\":\""@ + esc_str(d.product)) + seq!['"']) + ",\"manufacturer\":\""@) + esc_str(d.manufacturer)) + seq!['"']) + ",\"serial_num\":\""@) + esc_str(d.serial_num)), seq!['"'], u9);
    let u8 = seq!['"'] + u9;
    vstd::seq_lib::lemma_concat_associative((((((("{\"product\":\""@ + esc_str(d.product)) + seq!['"']) + ",\"manufacturer\":\""@) + esc_str(d.manufacturer)) + seq!['"']) + ",\"serial_num\":\""@), esc_str(d.serial_num), u8);
    let u7 = esc_str(d.serial_num) + u8;
    vstd::seq_lib::lemma_concat_associative(((((("{\"product\":\""@ + esc_str(d.product)) + seq!['"']) + ",\"manufacturer\":\""@) + esc_str(d.manufacturer)) + seq!['"']), ",\"serial_num\":\""@, u7);
    let u6 = ",\"serial_num\":\""@ + u7;
    vstd::seq_lib::lemma_concat_associative((((("{\"product\":\""@ + esc_str(d.product)) + seq!['"']) + ",\"manufacturer\":\""@) + esc_str(d.manufacturer)), seq!['"'], u6);
    let u5 = seq!['"'] + u6;
    vstd::seq_lib::lemma_concat_associative(((("{\"product\":\""@ + esc_str(d.product)) + seq!['"']) + ",\"manufacturer\":\""@), esc_str(d.manufacturer), u5);
    let u4 = esc_str(d.manufacturer) + u5;
    vstd::seq_lib::lemma_concat_associative((("{\"product\":\""@ + esc_str(d.product)) + seq!['"']), ",\"manufacturer\":\""@, u4);
    let u3 = ",\"manufacturer\":\""@ + u4;
    vstd::seq_lib::lemma_concat_associative(("{\"product\":\""@ + esc_str(d.product)), seq!['"'], u3);
    let u2 = seq!['"'] + u3;
    vstd::seq_lib::lemma_concat_associative("{\"product\":\""@, esc_str(d.product), u2);
    let u1 = esc_str(d.product) + u2;
    assert(enc_dev(d) + rest == "{\"product\":\""@ + u1);
    vstd::seq_lib::lemma_concat_associative(esc_str(d.product), seq!['"'], u3);
    vstd::seq_lib::lemma_concat_associative(esc_str(d.manufacturer), seq!['"'], u6);
    vstd::seq_lib::lemma_concat_associative(esc_str(d.serial_num), seq!['"'], u9);
    assert(u3 == dev_tail_2b(d, rest));
    assert(u6 == dev_tail_3b(d, rest));
    assert(u9 == dev_tail_4b(d, rest));
    assert(u1 == dev_tail_1(d, rest));
}

proof fn lemma_dev_boundaries(d: DevV, rest: Seq<char>)
    ensures
        enc_dev(d) + rest == "{\"product\":\""@ + dev_tail_1(d, rest),
        !is_digit(dev_tail_5b(d, rest)[0]) && dev_tail_5b(d, rest).len() > 0,
        !is_digit(dev_tail_6b(d, rest)[0]) && dev_tail_6b(d, rest).len() > 0,
        !is_digit(dev_tail_7b(d, rest)[0]) && dev_tail_7b(d, rest).len() > 0,
        !is_digit(dev_tail_8b(d, rest)[0]) && dev_tail_8b(d, rest).len() > 0,
        !is_digit(dev_tail_9b(d, rest)[0]) && dev_tail_9b(d, rest).len() > 0,
        !is_digit(dev_tail_10b(d, rest)[0]) && dev_tail_10b(d, rest).len() > 0,
        !is_digit(dev_tail_11b(d, rest)[0]) && dev_tail_11b(d, rest).len() > 0,
        !is_digit(dev_tail_12b(d, rest)[0]) && dev_tail_12b(d, rest).len() > 0,
        !is_digit(dev_tail_13b(d, rest)[0]) && dev_tail_13b(d, rest).len() > 0,
        !is_digit(dev_tail_14b(d, rest)[0]) && dev_tail_14b(d, rest).len() > 0,
{
    lemma_enc_dev_split(d, rest);
    reveal_strlit(",\"address\":");
    reveal_strlit(",\"d_version_major\":");
    reveal_strlit(",\"d_version_minor\":");
    reveal_strlit(",\"d_version_sub\":");
    reveal_strlit(",\"d_class\":");
    reveal_strlit(",\"d_subclass\":");
    reveal_strlit(",\"d_proto\":");
    reveal_strlit(",\"d_vendor_id\":");
    reveal_strlit(",\"d_product_id\":");
    reveal_strlit(",\"configs\":[");
    assert(dev_tail_5b(d, rest)[0] == ',');
    assert(dev_tail_6b(d, rest)[0] == ',');
    assert(dev_tail_7b(d, rest)[0] == ',');
    assert(dev_tail_8b(d, rest)[0] == ',');
    assert(dev_tail_9b(d, rest)[0] == ',');
    assert(dev_tail_10b(d, rest)[0] == ',');
    assert(dev_tail_11b(d, rest)[0] == ',');
    assert(dev_tail_12b(d, rest)[0] == ',');
    assert(dev_tail_13b(d, rest)[0] == ',');
    assert(dev_tail_14b(d, rest)[0] == ',');
}

/// A device record's text determines the record: two readings of one text
/// agree.
proof fn lemma_enc_dev_unique(d1: DevV, d2: DevV, r1: Seq<char>, r2: Seq<char>)
    requires
        enc_dev(d1) + r1 == enc_dev(d2) + r2,
    ensures
        d1 == d2,
        r1 == r2,
{
    lemma_dev_boundaries(d1, r1);
    lemma_dev_boundaries(d2, r2);
    lemma_prefix_cancel("{\"product\":\""@, dev_tail_1(d1, r1), dev_tail_1(d2, r2));
    lemma_qstr_unique(d1.product, d2.product, dev_tail_2b(d1, r1), dev_tail_2b(d2, r2));
    lemma_prefix_cancel(",\"manufacturer\":\""@, dev_tail_2(d1, r1), dev_tail_2(d2, r2));
    lemma_qstr_unique(d1.manufacturer, d2.manufacturer, dev_tail_3b(d1, r1), dev_tail_3b(d2, r2));
    lemma_prefix_cancel(",\"serial_num\":\""@, dev_tail_3(d1, r1), dev_tail_3(d2, r2));
    lemma_qstr_unique(d1.serial_num, d2.serial_num, dev_tail_4b(d1, r1), dev_tail_4b(d2, r2));
    lemma_prefix_cancel(",\"bus_number\":"@, dev_tail_4(d1, r1), dev_tail_4(d2, r2));
    lemma_num_unique(
        d1.bus_number as nat,
        d2.bus_number as nat,
        dev_tail_5b(d1, r1),
        dev_tail_5b(d2, r2),
    );
    lemma_prefix_cancel(",\"address\":"@, dev_tail_5(d1, r1), dev_tail_5(d2, r2));
    lemma_num_unique(
        d1.address as nat,
        d2.address as nat,
        dev_tail_6b(d1, r1),
        dev_tail_6b(d2, r2),
    );
    lemma_prefix_cancel(",\"d_version_major\":"@, dev_tail_6(d1, r1), dev_tail_6(d2, r2));
    lemma_num_unique(
        d1.d_version_major as nat,
        d2.d_version_major as nat,
        dev_tail_7b(d1, r1),
        dev_tail_7b(d2, r2),
    );
    lemma_prefix_cancel(",\"d_version_minor\":"@, dev_tail_7(d1, r1), dev_tail_7(d2, r2));
    lemma_num_unique(
        d1.d_version_minor as nat,
        d2.d_version_minor as nat,
        dev_tail_8b(d1, r1),
        dev_tail_8b(d2, r2),
    );
    lemma_prefix_cancel(",\"d_version_sub\":"@, dev_tail_8(d1, r1), dev_tail_8(d2, r2));
    lemma_num_unique(
        d1.d_version_sub as nat,
        d2.d_version_sub as nat,
        dev_tail_9b(d1, r1),
        dev_tail_9b(d2, r2),
    );
    lemma_prefix_cancel(",\"d_class\":"@, dev_tail_9(d1, r1), dev_tail_9(d2, r2));
    lemma_num_unique(
        d1.d_class as nat,
        d2.d_class as nat,
        dev_tail_10b(d1, r1),
        dev_tail_10b(d2, r2),
    );
    lemma_prefix_cancel(",\"d_subclass\":"@, dev_tail_10(d1, r1), dev_tail_10(d2, r2));
    lemma_num_unique(
        d1.d_subclass as nat,
        d2.d_subclass as nat,
        dev_tail_11b(d1, r1),
        dev_tail_11b(d2, r2),
    );
    lemma_prefix_cancel(",\"d_proto\":"@, dev_tail_11(d1, r1), dev_tail_11(d2, r2));
    lemma_num_unique(
        d1.d_proto as nat,
        d2.d_proto as nat,
        dev_tail_12b(d1, r1),
        dev_tail_12b(d2, r2),
    );
    lemma_prefix_cancel(",\"d_vendor_id\":"@, dev_tail_12(d1, r1), dev_tail_12(d2, r2));
    lemma_num_unique(
        d1.d_vendor_id as nat,
        d2.d_vendor_id as nat,
        dev_tail_13b(d1, r1),
        dev_tail_13b(d2, r2),
    );
    lemma_prefix_cancel(",\"d_product_id\":"@, dev_tail_13(d1, r1), dev_tail_13(d2, r2));
    lemma_num_unique(
        d1.d_product_id as nat,
        d2.d_product_id as nat,
        dev_tail_14b(d1, r1),
        dev_tail_14b(d2, r2),
    );
    lemma_prefix_cancel(",\"configs\":["@, dev_tail_14(d1, r1), dev_tail_14(d2, r2));
    lemma_enc_configs_unique(d1.configs, d2.configs, dev_tail_15(d1, r1), dev_tail_15(d2, r2));
    lemma_prefix_cancel("}"@, r1, r2);
    assert(d1 =~= d2);
}

proof fn lemma_subrange_split(t: Seq<char>, a: int, b: int, c: int)
    requires
        0 <= a <= b <= c <= t.len(),
    ensures
        t.subrange(a, c) == t.subrange(a, b) + t.subrange(b, c),
{
    assert(t.subrange(a, c) =~= t.subrange(a, b) + t.subrange(b, c));
}

/// Reads one configuration object at `pos`: exactly the canonical text of
/// some configuration record, which it returns.
fn parse_config(s: &str, pos: usize) -> (r: Option<(Config, usize)>)
    requires
        pos <= s@.len(),
    ensures
        r matches Some((c, p)) ==> pos < p <= s@.len() && s@.subrange(pos as int, p as int)
            == enc_config(c@),
        (exists|cv: ConfigV, rest: Seq<char>|
            s@.skip(pos as int) == #[trigger] (enc_config(cv) + rest)) ==> r is Some,
{
    let ghost ok = exists|cv: ConfigV, rest: Seq<char>|
        s@.skip(pos as int) == #[trigger] (enc_config(cv) + rest);
    let ghost (gcv, grest): (ConfigV, Seq<char>) = if ok {
        choose|cv: ConfigV, rest: Seq<char>|
            s@.skip(pos as int) == #[trigger] (enc_config(cv) + rest)
    } else {
        arbitrary()
    };
    proof {
        if ok {
            lemma_cfg_boundaries(gcv, grest);
            lemma_prefix_lit_at(s@, pos as int, "{\"config_num\":"@, cfg_tail_1(gcv, grest));
        }
    }
    let p1 = match take_lit(s, pos, "{\"config_num\":") {
        Some(p) => p,
        None => {
            proof {
                if ok {
                    assert(false);
                }
            }
            return None;
        },
    };
    proof {
        if ok {
            lemma_skip_decomp(s@, pos as int, p1 as int);
            lemma_prefix_cancel("{\"config_num\":"@, s@.skip(p1 as int), cfg_tail_1(gcv, grest));
            assert(s@.skip(p1 as int) == dec_rep((gcv.config_num as u32) as nat) + cfg_tail_2b(
                gcv,
                grest,
            ));
        }
    }
    let (v1, p2) = match parse_num(s, p1, 255) {
        Some(x) => x,
        None => {
            proof {
                if ok {
                    assert(false);
                }
            }
            return None;
        },
    };
    proof {
        if ok {
            assert(v1 == gcv.config_num as u32);
            lemma_skip_decomp(s@, p1 as int, p2 as int);
            lemma_prefix_cancel(
                dec_rep((gcv.config_num as u32) as nat),
                s@.skip(p2 as int),
                cfg_tail_2b(gcv, grest),
            );
            lemma_prefix_lit_at(s@, p2 as int, ",\"max_power\":"@, cfg_tail_2(gcv, grest));
        }
    }
    let p3 = match take_lit(s, p2, ",\"max_power\":") {
        Some(p) => p,
        None => {
            proof {
                if ok {
                    assert(false);
                }
            }
            return None;
        },
    };
    proof {
        if ok {
            lemma_skip_decomp(s@, p2 as int, p3 as int);
            lemma_prefix_cancel(",\"max_power\":"@, s@.skip(p3 as int), cfg_tail_2(gcv, grest));
            assert(s@.skip(p3 as int) == dec_rep((gcv.max_power as u32) as nat) + cfg_tail_3b(
                gcv,
                grest,
            ));
        }
    }
    let (v2, p4) = match parse_num(s, p3, 0xFFFF) {
        Some(x) => x,
        None => {
            proof {
                if ok {
                    assert(false);
                }
            }
            return None;
        },
    };
    proof {
        if ok {
            assert(v2 == gcv.max_power as u32);
            lemma_skip_decomp(s@, p3 as int, p4 as int);
            lemma_prefix_cancel(
                dec_rep((gcv.max_power as u32) as nat),
                s@.skip(p4 as int),
                cfg_tail_3b(gcv, grest),
            );
            lemma_prefix_lit_at(s@, p4 as int, ",\"internal_powered\":"@, cfg_tail_3(gcv, grest));
        }
    }
    let p5 = match take_lit(s, p4, ",\"internal_powered\":") {
        Some(p) => p,
        None => {
            proof {
                if ok {
                    assert(false);
                }
            }
            return None;
        },
    };
    proof {
        if ok {
            lemma_skip_decomp(s@, p4 as int, p5 as int);
            lemma_prefix_cancel(
                ",\"internal_powered\":"@,
                s@.skip(p5 as int),
                cfg_tail_3(gcv, grest),
            );
            assert(s@.skip(p5 as int) == bool_rep(gcv.internal_powered) + cfg_tail_4b(gcv, grest));
        }
    }
    let (b1, p6) = match parse_bool(s, p5) {
        Some(x) => x,
        None => {
            proof {
                if ok {
                    assert(false);
                }
            }
            return None;
        },
    };
    proof {
        if ok {
            assert(b1 == gcv.internal_powered);
            lemma_skip_decomp(s@, p5 as int, p6 as int);
            lemma_prefix_cancel(
                bool_rep(gcv.internal_powered),
                s@.skip(p6 as int),
                cfg_tail_4b(gcv, grest),
            );
            lemma_prefix_lit_at(s@, p6 as int, ",\"remote_wakeup\":"@, cfg_tail_4(gcv, grest));
        }
    }
    let p7 = match take_lit(s, p6, ",\"remote_wakeup\":") {
        Some(p) => p,
        None => {
            proof {
                if ok {
                    assert(false);
                }
            }
            return None;
        },
    };
    proof {
        if ok {
            lemma_skip_decomp(s@, p6 as int, p7 as int);
            lemma_prefix_cancel(",\"remote_wakeup\":"@, s@.skip(p7 as int), cfg_tail_4(gcv, grest));
            assert(s@.skip(p7 as int) == bool_rep(gcv.remote_wakeup) + cfg_tail_5b(gcv, grest));
        }
    }
    let (b2, p8) = match parse_bool(s, p7) {
        Some(x) => x,
        None => {
            proof {
                if ok {
                    assert(false);
                }
            }
            return None;
        },
    };
    proof {
        if ok {
            assert(b2 == gcv.remote_wakeup);
            lemma_skip_decomp(s@, p7 as int, p8 as int);
            lemma_prefix_cancel(
                bool_rep(gcv.remote_wakeup),
                s@.skip(p8 as int),
                cfg_tail_5b(gcv, grest),
            );
            lemma_prefix_lit_at(s@, p8 as int, ",\"config_str\":\""@, cfg_tail_5(gcv, grest));
        }
    }
    let p9 = match take_lit(s, p8, ",\"config_str\":\"") {
        Some(p) => p,
        None => {
            proof {
                if ok {
                    assert(false);
                }
            }
            return None;
        },
    };
    proof {
        if ok {
            lemma_skip_decomp(s@, p8 as int, p9 as int);
            lemma_prefix_cancel(",\"config_str\":\""@, s@.skip(p9 as int), cfg_tail_5(gcv, grest));
            assert(s@.skip(p9 as int) == esc_str(gcv.config_str) + seq!['"'] + cfg_tail_6(
                gcv,
                grest,
            ));
        }
    }
    let (sv, p10) = match parse_qstring(s, p9) {
        Some(x) => x,
        None => {
            proof {
                if ok {
                    assert(false);
                }
            }
            return None;
        },
    };
    proof {
        if ok {
            assert(sv@ == gcv.config_str);
            lemma_skip_decomp(s@, p9 as int, p10 as int);
            lemma_prefix_cancel(
                esc_str(gcv.config_str) + seq!['"'],
                s@.skip(p10 as int),
                cfg_tail_6(gcv, grest),
            );
            lemma_prefix_lit_at(s@, p10 as int, "}"@, grest);
        }
    }
    let p11 = match take_lit(s, p10, "}") {
        Some(p) => p,
        None => {
            proof {
                if ok {
                    assert(false);
                }
            }
            return None;
        },
    };
    let c = Config {
        config_num: v1 as u8,
        max_power: v2 as u16,
        internal_powered: b1,
        remote_wakeup: b2,
        config_str: sv,
    };
    proof {
        lemma_subrange_split(s@, pos as int, p1 as int, p2 as int);
        lemma_subrange_split(s@, pos as int, p2 as int, p3 as int);
        lemma_subrange_split(s@, pos as int, p3 as int, p4 as int);
        lemma_subrange_split(s@, pos as int, p4 as int, p5 as int);
        lemma_subrange_split(s@, pos as int, p5 as int, p6 as int);
        lemma_subrange_split(s@, pos as int, p6 as int, p7 as int);
        lemma_subrange_split(s@, pos as int, p7 as int, p8 as int);
        lemma_subrange_split(s@, pos as int, p8 as int, p9 as int);
        lemma_subrange_split(s@, pos as int, p9 as int, p10 as int);
        lemma_subrange_split(s@, pos as int, p10 as int, p11 as int);
        let x = s@.subrange(pos as int, p9 as int);
        vstd::seq_lib::lemma_concat_associative(x, esc_str(sv@), seq!['"']);
        assert((v1 as u8) as nat == v1 as nat);
        assert((v2 as u16) as nat == v2 as nat);
        assert(s@.subrange(pos as int, p11 as int) == enc_config(c@));
    }
    Some((c, p11))
}

/// Reads a configuration list at `pos`, its closing bracket included, the
/// opening bracket having been consumed with the field name.
fn parse_configs_list(s: &str, pos: usize) -> (r: Option<(Vec<Config>, usize)>)
    requires
        pos <= s@.len(),
    ensures
        r matches Some((cs, p)) ==> pos < p <= s@.len() && s@.subrange(pos as int, p as int)
            == enc_configs(configs_view(cs@)) + seq![']'],
        (exists|cs0: Seq<ConfigV>, rest: Seq<char>|
            s@.skip(pos as int) == #[trigger] ((enc_configs(cs0) + seq![']']) + rest)) ==> r
            is Some,
{
    broadcast use Seq::add_empty_left, Seq::add_empty_right;

    let ghost ok = exists|cs0: Seq<ConfigV>, rest: Seq<char>|
        s@.skip(pos as int) == #[trigger] ((enc_configs(cs0) + seq![']']) + rest);
    let ghost (gcs, grest): (Seq<ConfigV>, Seq<char>) = if ok {
        choose|cs0: Seq<ConfigV>, rest: Seq<char>|
            s@.skip(pos as int) == #[trigger] ((enc_configs(cs0) + seq![']']) + rest)
    } else {
        arbitrary()
    };
    proof {
        reveal_strlit("]");
        reveal_strlit(",");
        assert("]"@ =~= seq![']']);
        assert(","@ =~= seq![',']);
        if ok {
            if gcs.len() == 0 {
                assert(enc_configs(gcs) == Seq::<char>::empty());
                assert(s@.skip(pos as int) == seq![']'] + grest);
                lemma_prefix_lit_at(s@, pos as int, "]"@, grest);
            } else {
                let m = seq![','];
                let q = seq![']'];
                let e = enc_config(gcs[0]);
                let rr = enc_configs_rest(gcs.drop_first());
                assert(enc_configs(gcs) == e + rr);
                assert(((e + rr) + q) + grest == e + ((rr + q) + grest)) by {
                    vstd::seq_lib::lemma_concat_associative(e, rr, q);
                    vstd::seq_lib::lemma_concat_associative(e, rr + q, grest);
                }
                assert(s@.skip(pos as int) == enc_config(gcs[0]) + ((enc_configs_rest(
                    gcs.drop_first(),
                ) + seq![']']) + grest));
            }
        }
    }
    match take_lit(s, pos, "]") {
        Some(p) => {
            let out: Vec<Config> = Vec::new();
            proof {
                assert(configs_view(out@) =~= Seq::<ConfigV>::empty());
                assert(enc_configs(configs_view(out@)) == Seq::<char>::empty());
                assert(s@.subrange(pos as int, p as int) == "]"@);
                assert(enc_configs(configs_view(out@)) + seq![']'] == seq![']']);
            }
            return Some((out, p));
        },
        None => {
            proof {
                if ok && gcs.len() == 0 {
                    assert(false);
                }
            }
        },
    }
    let (c0, q0) = match parse_config(s, pos) {
        Some(x) => x,
        None => {
            proof {
                if ok {
                    assert(false);
                }
            }
            return None;
        },
    };
    proof {
        if ok {
            lemma_skip_decomp(s@, pos as int, q0 as int);
            lemma_enc_config_unique(
                c0@,
                gcs[0],
                s@.skip(q0 as int),
                (enc_configs_rest(gcs.drop_first()) + seq![']']) + grest,
            );
            assert(gcs.drop_first() =~= gcs.skip(1));
        }
    }
    let mut out: Vec<Config> = Vec::new();
    out.push(c0);
    let mut cur = q0;
    proof {
        assert(configs_view(out@) =~= seq![c0@]);
        assert(seq![c0@][0] == c0@);
        assert(seq![c0@].drop_first() =~= Seq::<ConfigV>::empty());
        assert(enc_configs(seq![c0@]) == enc_config(c0@) + Seq::<char>::empty());
        assert(s@.subrange(pos as int, cur as int) == enc_configs(configs_view(out@)));
        if ok {
            assert(configs_view(out@) =~= gcs.take(1));
        }
    }
    let n = s.unicode_len();
    while cur < n
        invariant
            n == s@.len(),
            pos < cur <= n,
            out@.len() >= 1,
            s@.subrange(pos as int, cur as int) == enc_configs(configs_view(out@)),
            ok ==> out@.len() <= gcs.len() && configs_view(out@) == gcs.take(out@.len() as int)
                && s@.skip(cur as int) == (enc_configs_rest(gcs.skip(out@.len() as int))
                + seq![']']) + grest,
            ok == exists|cs0: Seq<ConfigV>, rest: Seq<char>|
                s@.skip(pos as int) == #[trigger] ((enc_configs(cs0) + seq![']']) + rest),
            ok ==> s@.skip(pos as int) == (enc_configs(gcs) + seq![']']) + grest,
        decreases n - cur,
    {
        proof {
            reveal_strlit("]");
            reveal_strlit(",");
            assert("]"@ =~= seq![']']);
            assert(","@ =~= seq![',']);
        }
        match take_lit(s, cur, "]") {
            Some(p) => {
                proof {
                    lemma_subrange_split(s@, pos as int, cur as int, p as int);
                    assert(s@.subrange(pos as int, p as int) == enc_configs(configs_view(out@))
                        + seq![']']);
                }
                return Some((out, p));
            },
            None => {
                proof {
                    if ok {
                        let k = out@.len() as int;
                        if gcs.skip(k).len() == 0 {
                            assert(enc_configs_rest(gcs.skip(k)) == Seq::<char>::empty());
                            assert(s@.skip(cur as int) == seq![']'] + grest);
                            lemma_prefix_lit_at(s@, cur as int, "]"@, grest);
                            assert(false);
                        }
                    }
                }
            },
        }
        proof {
            if ok {
                let k = out@.len() as int;
                let sk = gcs.skip(k);
                let m = seq![','];
                let q = seq![']'];
                let e = enc_config(sk[0]);
                let rr = enc_configs_rest(sk.drop_first());
                assert(enc_configs_rest(sk) == (m + e) + rr);
                assert((((m + e) + rr) + q) + grest == m + (e + ((rr + q) + grest))) by {
                    vstd::seq_lib::lemma_concat_associative(m, e, rr);
                    vstd::seq_lib::lemma_concat_associative(m, e + rr, q);
                    vstd::seq_lib::lemma_concat_associative(m, (e + rr) + q, grest);
                    vstd::seq_lib::lemma_concat_associative(e, rr, q);
                    vstd::seq_lib::lemma_concat_associative(e, rr + q, grest);
                }
                assert(sk[0] == gcs[k]);
                assert(sk.drop_first() =~= gcs.skip(k + 1));
                assert(s@.skip(cur as int) == ","@ + (enc_config(gcs[k]) + ((enc_configs_rest(
                    gcs.skip(k + 1),
                ) + seq![']']) + grest)));
                lemma_prefix_lit_at(
                    s@,
                    cur as int,
                    ","@,
                    enc_config(gcs[k]) + ((enc_configs_rest(gcs.skip(k + 1)) + seq![']']) + grest),
                );
            }
        }
        let p = match take_lit(s, cur, ",") {
            Some(p) => p,
            None => {
                proof {
                    if ok {
                        assert(false);
                    }
                }
                return None;
            },
        };
        proof {
            if ok {
                let k = out@.len() as int;
                lemma_skip_decomp(s@, cur as int, p as int);
                lemma_prefix_cancel(
                    ","@,
                    s@.skip(p as int),
                    enc_config(gcs[k]) + ((enc_configs_rest(gcs.skip(k + 1)) + seq![']']) + grest),
                );
            }
        }
        let (c, q) = match parse_config(s, p) {
            Some(x) => x,
            None => {
                proof {
                    if ok {
                        assert(false);
                    }
                }
                return None;
            },
        };
        proof {
            if ok {
                let k = out@.len() as int;
                lemma_skip_decomp(s@, p as int, q as int);
                lemma_enc_config_unique(
                    c@,
                    gcs[k],
                    s@.skip(q as int),
                    (enc_configs_rest(gcs.skip(k + 1)) + seq![']']) + grest,
                );
            }
        }
        let ghost pv = configs_view(out@);
        proof {
            lemma_enc_configs_push(pv, c@);
            lemma_subrange_split(s@, pos as int, cur as int, p as int);
            lemma_subrange_split(s@, pos as int, p as int, q as int);
        }
        out.push(c);
        cur = q;
        proof {
            assert(configs_view(out@) =~= pv.push(c@));
            assert(s@.subrange(pos as int, cur as int) == enc_configs(configs_view(out@)));
            if ok {
                let k2 = out@.len() as int;
                assert(configs_view(out@) =~= gcs.take(k2));
            }
        }
    }
    proof {
        if ok {
            assert(s@.skip(cur as int).len() == 0);
            assert(((enc_configs_rest(gcs.skip(out@.len() as int)) + seq![']']) + grest).len()
                >= 1);
            assert(false);
        }
    }
    None
}

/// Reads one device object at `pos`: exactly the canonical text of some
/// device record, which it returns.
#[verifier::rlimit(100)]
fn parse_dev(s: &str, pos: usize) -> (r: Option<(Dev, usize)>)
    requires
        pos <= s@.len(),
    ensures
        r matches Some((d, p)) ==> pos < p <= s@.len() && s@.subrange(pos as int, p as int)
            == enc_dev(d@),
        (exists|dv: DevV, rest: Seq<char>|
            s@.skip(pos as int) == #[trigger] (enc_dev(dv) + rest)) ==> r is Some,
{
    let ghost ok = exists|dv: DevV, rest: Seq<char>|
        s@.skip(pos as int) == #[trigger] (enc_dev(dv) + rest);
    let ghost (gdv, grest): (DevV, Seq<char>) = if ok {
        choose|dv: DevV, rest: Seq<char>| s@.skip(pos as int) == #[trigger] (enc_dev(dv) + rest)
    } else {
        arbitrary()
    };
    proof {
        if ok {
            lemma_dev_boundaries(gdv, grest);
            lemma_prefix_lit_at(s@, pos as int, "{\"product\":\""@, dev_tail_1(gdv, grest));
        }
    }
    let p1 = match take_lit(s, pos, "{\"product\":\"") {
        Some(p) => p,
        None => {
            proof {
                if ok {
                    assert(false);
                }
            }
            return None;
        },
    };
    proof {
        if ok {
            lemma_skip_decomp(s@, pos as int, p1 as int);
            lemma_prefix_cancel("{\"product\":\""@, s@.skip(p1 as int), dev_tail_1(gdv, grest));
            assert(s@.skip(p1 as int) == esc_str(gdv.product) + seq!['"'] + dev_tail_2b(gdv, grest));
        }
    }
    let (sv1, p2) = match parse_qstring(s, p1) {
        Some(x) => x,
        None => {
            proof {
                if ok {
                    assert(false);
                }
            }
            return None;
        },
    };
    proof {
        if ok {
            assert(sv1@ == gdv.product);
            lemma_skip_decomp(s@, p1 as int, p2 as int);
            lemma_prefix_cancel(
                esc_str(gdv.product) + seq!['"'],
                s@.skip(p2 as int),
                dev_tail_2b(gdv, grest),
            );
            lemma_prefix_lit_at(s@, p2 as int, ",\"manufacturer\":\""@, dev_tail_2(gdv, grest));
        }
    }
    let p3 = match take_lit(s, p2, ",\"manufacturer\":\"") {
        Some(p) => p,
        None => {
            proof {
                if ok {
                    assert(false);
                }
            }
            return None;
        },
    };
    proof {
        if ok {
            lemma_skip_decomp(s@, p2 as int, p3 as int);
            lemma_prefix_cancel(",\"manufacturer\":\""@, s@.skip(p3 as int), dev_tail_2(gdv, grest));
            assert(s@.skip(p3 as int) == esc_str(gdv.manufacturer) + seq!['"'] + dev_tail_3b(gdv, grest));
        }
    }
    let (sv2, p4) = match parse_qstring(s, p3) {
        Some(x) => x,
        None => {
            proof {
                if ok {
                    assert(false);
                }
            }
            return None;
        },
    };
    proof {
        if ok {
            assert(sv2@ == gdv.manufacturer);
            lemma_skip_decomp(s@, p3 as int, p4 as int);
            lemma_prefix_cancel(
                esc_str(gdv.manufacturer) + seq!['"'],
                s@.skip(p4 as int),
                dev_tail_3b(gdv, grest),
            );
            lemma_prefix_lit_at(s@, p4 as int, ",\"serial_num\":\""@, dev_tail_3(gdv, grest));
        }
    }
    let p5 = match take_lit(s, p4, ",\"serial_num\":\"") {
        Some(p) => p,
        None => {
            proof {
                if ok {
                    assert(false);
                }
            }
            return None;
        },
    };
    proof {
        if ok {
            lemma_skip_decomp(s@, p4 as int, p5 as int);
            lemma_prefix_cancel(",\"serial_num\":\""@, s@.skip(p5 as int), dev_tail_3(gdv, grest));
            assert(s@.skip(p5 as int) == esc_str(gdv.serial_num) + seq!['"'] + dev_tail_4b(gdv, grest));
        }
    }
    let (sv3, p6) = match parse_qstring(s, p5) {
        Some(x) => x,
        None => {
            proof {
                if ok {
                    assert(false);
                }
            }
            return None;
        },
    };
    proof {
        if ok {
            assert(sv3@ == gdv.serial_num);
            lemma_skip_decomp(s@, p5 as int, p6 as int);
            lemma_prefix_cancel(
                esc_str(gdv.serial_num) + seq!['"'],
                s@.skip(p6 as int),
                dev_tail_4b(gdv, grest),
            );
            lemma_prefix_lit_at(s@, p6 as int, ",\"bus_number\":"@, dev_tail_4(gdv, grest));
        }
    }
    let p7 = match take_lit(s, p6, ",\"bus_number\":") {
        Some(p) => p,
        None => {
            proof {
                if ok {
                    assert(false);
                }
            }
            return None;
        },
    };
    proof {
        if ok {
            lemma_skip_decomp(s@, p6 as int, p7 as int);
            lemma_prefix_cancel(",\"bus_number\":"@, s@.skip(p7 as int), dev_tail_4(gdv, grest));
            assert(s@.skip(p7 as int) == dec_rep((gdv.bus_number as u32) as nat) + dev_tail_5b(gdv, grest));
        }
    }
    let (v_bus_number, p8) = match parse_num(s, p7, 255) {
        Some(x) => x,
        None => {
            proof {
                if ok {
                    assert(false);
                }
            }
            return None;
        },
    };
    proof {
        if ok {
            assert(v_bus_number == gdv.bus_number as u32);
            lemma_skip_decomp(s@, p7 as int, p8 as int);
            lemma_prefix_cancel(
                dec_rep((gdv.bus_number as u32) as nat),
                s@.skip(p8 as int),
                dev_tail_5b(gdv, grest),
            );
            lemma_prefix_lit_at(s@, p8 as int, ",\"address\":"@, dev_tail_5(gdv, grest));
        }
    }
    let p9 = match take_lit(s, p8, ",\"address\":") {
        Some(p) => p,
        None => {
            proof {
                if ok {
                    assert(false);
                }
            }
            return None;
        },
    };
    proof {
        if ok {
            lemma_skip_decomp(s@, p8 as int, p9 as int);
            lemma_prefix_cancel(",\"address\":"@, s@.skip(p9 as int), dev_tail_5(gdv, grest));
            assert(s@.skip(p9 as int) == dec_rep((gdv.address as u32) as nat) + dev_tail_6b(gdv, grest));
        }
    }
    let (v_address, p10) = match parse_num(s, p9, 255) {
        Some(x) => x,
        None => {
            proof {
                if ok {
                    assert(false);
                }
            }
            return None;
        },
    };
    proof {
        if ok {
            assert(v_address == gdv.address as u32);
            lemma_skip_decomp(s@, p9 as int, p10 as int);
            lemma_prefix_cancel(
                dec_rep((gdv.address as u32) as nat),
                s@.skip(p10 as int),
                dev_tail_6b(gdv, grest),
            );
            lemma_prefix_lit_at(s@, p10 as int, ",\"d_version_major\":"@, dev_tail_6(gdv, grest));
        }
    }
    let p11 = match take_lit(s, p10, ",\"d_version_major\":") {
        Some(p) => p,
        None => {
            proof {
                if ok {
                    assert(false);
                }
            }
            return None;
        },
    };
    proof {
        if ok {
            lemma_skip_decomp(s@, p10 as int, p11 as int);
            lemma_prefix_cancel(",\"d_version_major\":"@, s@.skip(p11 as int), dev_tail_6(gdv, grest));
            assert(s@.skip(p11 as int) == dec_rep((gdv.d_version_major as u32) as nat) + dev_tail_7b(gdv, grest));
        }
    }
    let (v_d_version_major, p12) = match parse_num(s, p11, 255) {
        Some(x) => x,
        None => {
            proof {
                if ok {
                    assert(false);
                }
            }
            return None;
        },
    };
    proof {
        if ok {
            assert(v_d_version_major == gdv.d_version_major as u32);
            lemma_skip_decomp(s@, p11 as int, p12 as int);
            lemma_prefix_cancel(
                dec_rep((gdv.d_version_major as u32) as nat),
                s@.skip(p12 as int),
                dev_tail_7b(gdv, grest),
            );
            lemma_prefix_lit_at(s@, p12 as int, ",\"d_version_minor\":"@, dev_tail_7(gdv, grest));
        }
    }
    let p13 = match take_lit(s, p12, ",\"d_version_minor\":") {
        Some(p) => p,
        None => {
            proof {
                if ok {
                    assert(false);
                }
            }
            return None;
        },
    };
    proof {
        if ok {
            lemma_skip_decomp(s@, p12 as int, p13 as int);
            lemma_prefix_cancel(",\"d_version_minor\":"@, s@.skip(p13 as int), dev_tail_7(gdv, grest));
            assert(s@.skip(p13 as int) == dec_rep((gdv.d_version_minor as u32) as nat) + dev_tail_8b(gdv, grest));
        }
    }
    let (v_d_version_minor, p14) = match parse_num(s, p13, 255) {
        Some(x) => x,
        None => {
            proof {
                if ok {
                    assert(false);
                }
            }
            return None;
        },
    };
    proof {
        if ok {
            assert(v_d_version_minor == gdv.d_version_minor as u32);
            lemma_skip_decomp(s@, p13 as int, p14 as int);
            lemma_prefix_cancel(
                dec_rep((gdv.d_version_minor as u32) as nat),
                s@.skip(p14 as int),
                dev_tail_8b(gdv, grest),
            );
            lemma_prefix_lit_at(s@, p14 as int, ",\"d_version_sub\":"@, dev_tail_8(gdv, grest));
        }
    }
    let p15 = match take_lit(s, p14, ",\"d_version_sub\":") {
        Some(p) => p,
        None => {
            proof {
                if ok {
                    assert(false);
                }
            }
            return None;
        },
    };
    proof {
        if ok {
            lemma_skip_decomp(s@, p14 as int, p15 as int);
            lemma_prefix_cancel(",\"d_version_sub\":"@, s@.skip(p15 as int), dev_tail_8(gdv, grest));
            assert(s@.skip(p15 as int) == dec_rep((gdv.d_version_sub as u32) as nat) + dev_tail_9b(gdv, grest));
        }
    }
    let (v_d_version_sub, p16) = match parse_num(s, p15, 255) {
        Some(x) => x,
        None => {
            proof {
                if ok {
                    assert(false);
                }
            }
            return None;
        },
    };
    proof {
        if ok {
            assert(v_d_version_sub == gdv.d_version_sub as u32);
            lemma_skip_decomp(s@, p15 as int, p16 as int);
            lemma_prefix_cancel(
                dec_rep((gdv.d_version_sub as u32) as nat),
                s@.skip(p16 as int),
                dev_tail_9b(gdv, grest),
            );
            lemma_prefix_lit_at(s@, p16 as int, ",\"d_class\":"@, dev_tail_9(gdv, grest));
        }
    }
    let p17 = match take_lit(s, p16, ",\"d_class\":") {
        Some(p) => p,
        None => {
            proof {
                if ok {
                    assert(false);
                }
            }
            return None;
        },
    };
    proof {
        if ok {
            lemma_skip_decomp(s@, p16 as int, p17 as int);
            lemma_prefix_cancel(",\"d_class\":"@, s@.skip(p17 as int), dev_tail_9(gdv, grest));
            assert(s@.skip(p17 as int) == dec_rep((gdv.d_class as u32) as nat) + dev_tail_10b(gdv, grest));
        }
    }
    let (v_d_class, p18) = match parse_num(s, p17, 255) {
        Some(x) => x,
        None => {
            proof {
                if ok {
                    assert(false);
                }
            }
            return None;
        },
    };
    proof {
        if ok {
            assert(v_d_class == gdv.d_class as u32);
            lemma_skip_decomp(s@, p17 as int, p18 as int);
            lemma_prefix_cancel(
                dec_rep((gdv.d_class as u32) as nat),
                s@.skip(p18 as int),
                dev_tail_10b(gdv, grest),
            );
            lemma_prefix_lit_at(s@, p18 as int, ",\"d_subclass\":"@, dev_tail_10(gdv, grest));
        }
    }
    let p19 = match take_lit(s, p18, ",\"d_subclass\":") {
        Some(p) => p,
        None => {
            proof {
                if ok {
                    assert(false);
                }
            }
            return None;
        },
    };
    proof {
        if ok {
            lemma_skip_decomp(s@, p18 as int, p19 as int);
            lemma_prefix_cancel(",\"d_subclass\":"@, s@.skip(p19 as int), dev_tail_10(gdv, grest));
            assert(s@.skip(p19 as int) == dec_rep((gdv.d_subclass as u32) as nat) + dev_tail_11b(gdv, grest));
        }
    }
    let (v_d_subclass, p20) = match parse_num(s, p19, 255) {
        Some(x) => x,
        None => {
            proof {
                if ok {
                    assert(false);
                }
            }
            return None;
        },
    };
    proof {
        if ok {
            assert(v_d_subclass == gdv.d_subclass as u32);
            lemma_skip_decomp(s@, p19 as int, p20 as int);
            lemma_prefix_cancel(
                dec_rep((gdv.d_subclass as u32) as nat),
                s@.skip(p20 as int),
                dev_tail_11b(gdv, grest),
            );
            lemma_prefix_lit_at(s@, p20 as int, ",\"d_proto\":"@, dev_tail_11(gdv, grest));
        }
    }
    let p21 = match take_lit(s, p20, ",\"d_proto\":") {
        Some(p) => p,
        None => {
            proof {
                if ok {
                    assert(false);
                }
            }
            return None;
        },
    };
    proof {
        if ok {
            lemma_skip_decomp(s@, p20 as int, p21 as int);
            lemma_prefix_cancel(",\"d_proto\":"@, s@.skip(p21 as int), dev_tail_11(gdv, grest));
            assert(s@.skip(p21 as int) == dec_rep((gdv.d_proto as u32) as nat) + dev_tail_12b(gdv, grest));
        }
    }
    let (v_d_proto, p22) = match parse_num(s, p21, 255) {
        Some(x) => x,
        None => {
            proof {
                if ok {
                    assert(false);
                }
            }
            return None;
        },
    };
    proof {
        if ok {
            assert(v_d_proto == gdv.d_proto as u32);
            lemma_skip_decomp(s@, p21 as int, p22 as int);
            lemma_prefix_cancel(
                dec_rep((gdv.d_proto as u32) as nat),
                s@.skip(p22 as int),
                dev_tail_12b(gdv, grest),
            );
            lemma_prefix_lit_at(s@, p22 as int, ",\"d_vendor_id\":"@, dev_tail_12(gdv, grest));
        }
    }
    let p23 = match take_lit(s, p22, ",\"d_vendor_id\":") {
        Some(p) => p,
        None => {
            proof {
                if ok {
                    assert(false);
                }
            }
            return None;
        },
    };
    proof {
        if ok {
            lemma_skip_decomp(s@, p22 as int, p23 as int);
            lemma_prefix_cancel(",\"d_vendor_id\":"@, s@.skip(p23 as int), dev_tail_12(gdv, grest));
            assert(s@.skip(p23 as int) == dec_rep((gdv.d_vendor_id as u32) as nat) + dev_tail_13b(gdv, grest));
        }
    }
    let (v_d_vendor_id, p24) = match parse_num(s, p23, 0xFFFF) {
        Some(x) => x,
        None => {
            proof {
                if ok {
                    assert(false);
                }
            }
            return None;
        },
    };
    proof {
        if ok {
            assert(v_d_vendor_id == gdv.d_vendor_id as u32);
            lemma_skip_decomp(s@, p23 as int, p24 as int);
            lemma_prefix_cancel(
                dec_rep((gdv.d_vendor_id as u32) as nat),
                s@.skip(p24 as int),
                dev_tail_13b(gdv, grest),
            );
            lemma_prefix_lit_at(s@, p24 as int, ",\"d_product_id\":"@, dev_tail_13(gdv, grest));
        }
    }
    let p25 = match take_lit(s, p24, ",\"d_product_id\":") {
        Some(p) => p,
        None => {
            proof {
                if ok {
                    assert(false);
                }
            }
            return None;
        },
    };
    proof {
        if ok {
            lemma_skip_decomp(s@, p24 as int, p25 as int);
            lemma_prefix_cancel(",\"d_product_id\":"@, s@.skip(p25 as int), dev_tail_13(gdv, grest));
            assert(s@.skip(p25 as int) == dec_rep((gdv.d_product_id as u32) as nat) + dev_tail_14b(gdv, grest));
        }
    }
    let (v_d_product_id, p26) = match parse_num(s, p25, 0xFFFF) {
        Some(x) => x,
        None => {
            proof {
                if ok {
                    assert(false);
                }
            }
            return None;
        },
    };
    proof {
        if ok {
            assert(v_d_product_id == gdv.d_product_id as u32);
            lemma_skip_decomp(s@, p25 as int, p26 as int);
            lemma_prefix_cancel(
                dec_rep((gdv.d_product_id as u32) as nat),
                s@.skip(p26 as int),
                dev_tail_14b(gdv, grest),
            );
            lemma_prefix_lit_at(s@, p26 as int, ",\"configs\":["@, dev_tail_14(gdv, grest));
        }
    }
    let p27 = match take_lit(s, p26, ",\"configs\":[") {
        Some(p) => p,
        None => {
            proof {
                if ok {
                    assert(false);
                }
            }
            return None;
        },
    };
    proof {
        if ok {
            lemma_skip_decomp(s@, p26 as int, p27 as int);
            lemma_prefix_cancel(",\"configs\":["@, s@.skip(p27 as int), dev_tail_14(gdv, grest));
            assert(s@.skip(p27 as int) == (enc_configs(gdv.configs) + seq![']'])
                + dev_tail_15(gdv, grest));
        }
    }
    let (cs, p28) = match parse_configs_list(s, p27) {
        Some(x) => x,
        None => {
            proof {
                if ok {
                    assert(false);
                }
            }
            return None;
        },
    };
    proof {
        if ok {
            lemma_skip_decomp(s@, p27 as int, p28 as int);
            lemma_enc_configs_unique(
                configs_view(cs@),
                gdv.configs,
                s@.skip(p28 as int),
                dev_tail_15(gdv, grest),
            );
            lemma_prefix_lit_at(s@, p28 as int, "}"@, grest);
        }
    }
    let p29 = match take_lit(s, p28, "}") {
        Some(p) => p,
        None => {
            proof {
                if ok {
                    assert(false);
                }
            }
            return None;
        },
    };
    let d = Dev {
        product: sv1,
        manufacturer: sv2,
        serial_num: sv3,
        bus_number: v_bus_number as u8,
        address: v_address as u8,
        d_version_major: v_d_version_major as u8,
        d_version_minor: v_d_version_minor as u8,
        d_version_sub: v_d_version_sub as u8,
        d_class: v_d_class as u8,
        d_subclass: v_d_subclass as u8,
        d_proto: v_d_proto as u8,
        d_vendor_id: v_d_vendor_id as u16,
        d_product_id: v_d_product_id as u16,
        configs: cs,
    };
    proof {
        lemma_subrange_split(s@, pos as int, p1 as int, p2 as int);
        lemma_subrange_split(s@, pos as int, p2 as int, p3 as int);
        lemma_subrange_split(s@, pos as int, p3 as int, p4 as int);
        lemma_subrange_split(s@, pos as int, p4 as int, p5 as int);
        lemma_subrange_split(s@, pos as int, p5 as int, p6 as int);
        lemma_subrange_split(s@, pos as int, p6 as int, p7 as int);
        lemma_subrange_split(s@, pos as int, p7 as int, p8 as int);
        lemma_subrange_split(s@, pos as int, p8 as int, p9 as int);
        lemma_subrange_split(s@, pos as int, p9 as int, p10 as int);
        lemma_subrange_split(s@, pos as int, p10 as int, p11 as int);
        lemma_subrange_split(s@, pos as int, p11 as int, p12 as int);
        lemma_subrange_split(s@, pos as int, p12 as int, p13 as int);
        lemma_subrange_split(s@, pos as int, p13 as int, p14 as int);
        lemma_subrange_split(s@, pos as int, p14 as int, p15 as int);
        lemma_subrange_split(s@, pos as int, p15 as int, p16 as int);
        lemma_subrange_split(s@, pos as int, p16 as int, p17 as int);
        lemma_subrange_split(s@, pos as int, p17 as int, p18 as int);
        lemma_subrange_split(s@, pos as int, p18 as int, p19 as int);
        lemma_subrange_split(s@, pos as int, p19 as int, p20 as int);
        lemma_subrange_split(s@, pos as int, p20 as int, p21 as int);
        lemma_subrange_split(s@, pos as int, p21 as int, p22 as int);
        lemma_subrange_split(s@, pos as int, p22 as int, p23 as int);
        lemma_subrange_split(s@, pos as int, p23 as int, p24 as int);
        lemma_subrange_split(s@, pos as int, p24 as int, p25 as int);
        lemma_subrange_split(s@, pos as int, p25 as int, p26 as int);
        lemma_subrange_split(s@, pos as int, p26 as int, p27 as int);
        lemma_subrange_split(s@, pos as int, p27 as int, p28 as int);
        lemma_subrange_split(s@, pos as int, p28 as int, p29 as int);
        vstd::seq_lib::lemma_concat_associative(
            s@.subrange(pos as int, p1 as int),
            esc_str(sv1@),
            seq!['"'],
        );
        vstd::seq_lib::lemma_concat_associative(
            s@.subrange(pos as int, p3 as int),
            esc_str(sv2@),
            seq!['"'],
        );
        vstd::seq_lib::lemma_concat_associative(
            s@.subrange(pos as int, p5 as int),
            esc_str(sv3@),
            seq!['"'],
        );
        assert((v_bus_number as u8) as nat == v_bus_number as nat);
        assert((v_address as u8) as nat == v_address as nat);
        assert((v_d_version_major as u8) as nat == v_d_version_major as nat);
        assert((v_d_version_minor as u8) as nat == v_d_version_minor as nat);
        assert((v_d_version_sub as u8) as nat == v_d_version_sub as nat);
        assert((v_d_class as u8) as nat == v_d_class as nat);
        assert((v_d_subclass as u8) as nat == v_d_subclass as nat);
        assert((v_d_proto as u8) as nat == v_d_proto as nat);
        assert((v_d_vendor_id as u16) as nat == v_d_vendor_id as nat);
        assert((v_d_product_id as u16) as nat == v_d_product_id as nat);
        let x = s@.subrange(pos as int, p27 as int);
        let ec = enc_configs(configs_view(cs@));
        let q = seq![']'];
        reveal_strlit("]}");
        reveal_strlit("}");
        assert("]}"@ =~= q + "}"@);
        vstd::seq_lib::lemma_concat_associative(x, ec, q);
        vstd::seq_lib::lemma_concat_associative(x + ec, q, "}"@);
        assert(s@.subrange(pos as int, p29 as int) == ((x + ec) + q) + "}"@);
        assert(((x + ec) + q) + "}"@ == (x + ec) + "]}"@) by {
            vstd::seq_lib::lemma_concat_associative(x + ec, q, "}"@);
        }
        assert(s@.subrange(pos as int, p29 as int) == enc_dev(d@));
    }
    Some((d, p29))
}

proof fn lemma_enc_dev_first(c: DevV)
    ensures
        enc_dev(c).len() > 0,
        enc_dev(c)[0] == '{',
{
    reveal_strlit("{\"product\":\"");
    lemma_enc_dev_split(c, Seq::empty());
    broadcast use Seq::add_empty_right;

    assert((enc_dev(c) + Seq::<char>::empty())[0] == "{\"product\":\""@[0]);
}

/// A device list closed by its bracket determines the list: two
/// readings of one text agree.
proof fn lemma_enc_devs_rest_unique(a: Seq<DevV>, b: Seq<DevV>, r1: Seq<char>, r2: Seq<
    char,
>)
    requires
        (enc_devs_rest(a) + seq![']']) + r1 == (enc_devs_rest(b) + seq![']']) + r2,
    ensures
        a == b,
        r1 == r2,
    decreases a.len(),
{
    broadcast use Seq::add_empty_left, Seq::add_empty_right;

    let m = seq![','];
    let q = seq![']'];
    if a.len() == 0 && b.len() == 0 {
        lemma_prefix_cancel(q, r1, r2);
        assert(a =~= b);
    } else if a.len() == 0 {
        assert(((enc_devs_rest(a) + q) + r1)[0] == ']');
        let eb = enc_dev(b[0]);
        lemma_enc_dev_first(b[0]);
        assert(enc_devs_rest(b) == (m + eb) + enc_devs_rest(b.drop_first()));
        assert(enc_devs_rest(b)[0] == ',');
        assert(((enc_devs_rest(b) + q) + r2)[0] == ',');
        assert(false);
    } else if b.len() == 0 {
        assert(((enc_devs_rest(b) + q) + r2)[0] == ']');
        let ea = enc_dev(a[0]);
        assert(enc_devs_rest(a) == (m + ea) + enc_devs_rest(a.drop_first()));
        assert(enc_devs_rest(a)[0] == ',');
        assert(((enc_devs_rest(a) + q) + r1)[0] == ',');
        assert(false);
    } else {
        let ea = enc_dev(a[0]);
        let eb = enc_dev(b[0]);
        let ra = enc_devs_rest(a.drop_first());
        let rb = enc_devs_rest(b.drop_first());
        assert(enc_devs_rest(a) == m + ea + ra);
        assert(enc_devs_rest(b) == m + eb + rb);
        assert(((m + ea + ra) + q) + r1 == m + (ea + ((ra + q) + r1))) by {
            vstd::seq_lib::lemma_concat_associative(m, ea, ra);
            vstd::seq_lib::lemma_concat_associative(m, ea + ra, q);
            vstd::seq_lib::lemma_concat_associative(m, (ea + ra) + q, r1);
            vstd::seq_lib::lemma_concat_associative(ea, ra, q);
            vstd::seq_lib::lemma_concat_associative(ea, ra + q, r1);
        }
        assert(((m + eb + rb) + q) + r2 == m + (eb + ((rb + q) + r2))) by {
            vstd::seq_lib::lemma_concat_associative(m, eb, rb);
            vstd::seq_lib::lemma_concat_associative(m, eb + rb, q);
            vstd::seq_lib::lemma_concat_associative(m, (eb + rb) + q, r2);
            vstd::seq_lib::lemma_concat_associative(eb, rb, q);
            vstd::seq_lib::lemma_concat_associative(eb, rb + q, r2);
        }
        lemma_prefix_cancel(m, ea + ((ra + q) + r1), eb + ((rb + q) + r2));
        lemma_enc_dev_unique(a[0], b[0], (ra + q) + r1, (rb + q) + r2);
        lemma_enc_devs_rest_unique(a.drop_first(), b.drop_first(), r1, r2);
        assert(a.len() == b.len());
        assert forall|i: int| 0 <= i < a.len() implies a[i] == b[i] by {
            if i > 0 {
                assert(a[i] == a.drop_first()[i - 1]);
                assert(b[i] == b.drop_first()[i - 1]);
            }
        }
        assert(a =~= b);
    }
}

/// A device list closed by its bracket determines the list.
proof fn lemma_enc_devs_unique(a: Seq<DevV>, b: Seq<DevV>, r1: Seq<char>, r2: Seq<char>)
    requires
        (enc_devs(a) + seq![']']) + r1 == (enc_devs(b) + seq![']']) + r2,
    ensures
        a == b,
        r1 == r2,
{
    broadcast use Seq::add_empty_left, Seq::add_empty_right;

    let q = seq![']'];
    if a.len() == 0 && b.len() == 0 {
        lemma_prefix_cancel(q, r1, r2);
        assert(a =~= b);
    } else if a.len() == 0 {
        assert(((enc_devs(a) + q) + r1)[0] == ']');
        lemma_enc_dev_first(b[0]);
        assert(enc_devs(b) == enc_dev(b[0]) + enc_devs_rest(b.drop_first()));
        assert(enc_devs(b)[0] == '{');
        assert(((enc_devs(b) + q) + r2)[0] == '{');
        assert(false);
    } else if b.len() == 0 {
        assert(((enc_devs(b) + q) + r2)[0] == ']');
        lemma_enc_dev_first(a[0]);
        assert(enc_devs(a) == enc_dev(a[0]) + enc_devs_rest(a.drop_first()));
        assert(enc_devs(a)[0] == '{');
        assert(((enc_devs(a) + q) + r1)[0] == '{');
        assert(false);
    } else {
        let ea = enc_dev(a[0]);
        let eb = enc_dev(b[0]);
        let ra = enc_devs_rest(a.drop_first());
        let rb = enc_devs_rest(b.drop_first());
        assert(((ea + ra) + q) + r1 == ea + ((ra + q) + r1)) by {
            vstd::seq_lib::lemma_concat_associative(ea, ra, q);
            vstd::seq_lib::lemma_concat_associative(ea, ra + q, r1);
        }
        assert(((eb + rb) + q) + r2 == eb + ((rb + q) + r2)) by {
            vstd::seq_lib::lemma_concat_associative(eb, rb, q);
            vstd::seq_lib::lemma_concat_associative(eb, rb + q, r2);
        }
        lemma_enc_dev_unique(a[0], b[0], (ra + q) + r1, (rb + q) + r2);
        lemma_enc_devs_rest_unique(a.drop_first(), b.drop_first(), r1, r2);
        assert(a.len() == b.len());
        assert forall|i: int| 0 <= i < a.len() implies a[i] == b[i] by {
            if i > 0 {
                assert(a[i] == a.drop_first()[i - 1]);
                assert(b[i] == b.drop_first()[i - 1]);
            }
        }
        assert(a =~= b);
    }
}

/// Reads a device list at `pos`, its closing bracket included, the
/// opening bracket having been consumed by the caller.
#[verifier::rlimit(100)]
fn parse_devs_list(s: &str, pos: usize) -> (r: Option<(Vec<Dev>, usize)>)
    requires
        pos <= s@.len(),
    ensures
        r matches Some((cs, p)) ==> pos < p <= s@.len() && s@.subrange(pos as int, p as int)
            == enc_devs(snap_view(cs@)) + seq![']'],
        (exists|cs0: Seq<DevV>, rest: Seq<char>|
            s@.skip(pos as int) == #[trigger] ((enc_devs(cs0) + seq![']']) + rest)) ==> r
            is Some,
{
    broadcast use Seq::add_empty_left, Seq::add_empty_right;

    let ghost ok = exists|cs0: Seq<DevV>, rest: Seq<char>|
        s@.skip(pos as int) == #[trigger] ((enc_devs(cs0) + seq![']']) + rest);
    let ghost (gcs, grest): (Seq<DevV>, Seq<char>) = if ok {
        choose|cs0: Seq<DevV>, rest: Seq<char>|
            s@.skip(pos as int) == #[trigger] ((enc_devs(cs0) + seq![']']) + rest)
    } else {
        arbitrary()
    };
    proof {
        reveal_strlit("]");
        reveal_strlit(",");
        assert("]"@ =~= seq![']']);
        assert(","@ =~= seq![',']);
        if ok {
            if gcs.len() == 0 {
                assert(enc_devs(gcs) == Seq::<char>::empty());
                assert(s@.skip(pos as int) == seq![']'] + grest);
                lemma_prefix_lit_at(s@, pos as int, "]"@, grest);
            } else {
                let m = seq![','];
                let q = seq![']'];
                let e = enc_dev(gcs[0]);
                let rr = enc_devs_rest(gcs.drop_first());
                assert(enc_devs(gcs) == e + rr);
                assert(((e + rr) + q) + grest == e + ((rr + q) + grest)) by {
                    vstd::seq_lib::lemma_concat_associative(e, rr, q);
                    vstd::seq_lib::lemma_concat_associative(e, rr + q, grest);
                }
                assert(s@.skip(pos as int) == enc_dev(gcs[0]) + ((enc_devs_rest(
                    gcs.drop_first(),
                ) + seq![']']) + grest));
            }
        }
    }
    match take_lit(s, pos, "]") {
        Some(p) => {
            let out: Vec<Dev> = Vec::new();
            proof {
                assert(snap_view(out@) =~= Seq::<DevV>::empty());
                assert(enc_devs(snap_view(out@)) == Seq::<char>::empty());
                assert(s@.subrange(pos as int, p as int) == "]"@);
                assert(enc_devs(snap_view(out@)) + seq![']'] == seq![']']);
            }
            return Some((out, p));
        },
        None => {
            proof {
                if ok && gcs.len() == 0 {
                    assert(false);
                }
            }
        },
    }
    let (c0, q0) = match parse_dev(s, pos) {
        Some(x) => x,
        None => {
            proof {
                if ok {
                    assert(false);
                }
            }
            return None;
        },
    };
    proof {
        if ok {
            lemma_skip_decomp(s@, pos as int, q0 as int);
            lemma_enc_dev_unique(
                c0@,
                gcs[0],
                s@.skip(q0 as int),
                (enc_devs_rest(gcs.drop_first()) + seq![']']) + grest,
            );
            assert(gcs.drop_first() =~= gcs.skip(1));
        }
    }
    let mut out: Vec<Dev> = Vec::new();
    out.push(c0);
    let mut cur = q0;
    proof {
        assert(snap_view(out@) =~= seq![c0@]);
        assert(seq![c0@][0] == c0@);
        assert(seq![c0@].drop_first() =~= Seq::<DevV>::empty());
        assert(enc_devs(seq![c0@]) == enc_dev(c0@) + Seq::<char>::empty());
        assert(s@.subrange(pos as int, cur as int) == enc_devs(snap_view(out@)));
        if ok {
            assert(snap_view(out@) =~= gcs.take(1));
        }
    }
    let n = s.unicode_len();
    while cur < n
        invariant
            n == s@.len(),
            pos < cur <= n,
            out@.len() >= 1,
            s@.subrange(pos as int, cur as int) == enc_devs(snap_view(out@)),
            ok ==> out@.len() <= gcs.len() && snap_view(out@) == gcs.take(out@.len() as int)
                && s@.skip(cur as int) == (enc_devs_rest(gcs.skip(out@.len() as int))
                + seq![']']) + grest,
            ok == exists|cs0: Seq<DevV>, rest: Seq<char>|
                s@.skip(pos as int) == #[trigger] ((enc_devs(cs0) + seq![']']) + rest),
            ok ==> s@.skip(pos as int) == (enc_devs(gcs) + seq![']']) + grest,
        decreases n - cur,
    {
        proof {
            reveal_strlit("]");
            reveal_strlit(",");
            assert("]"@ =~= seq![']']);
            assert(","@ =~= seq![',']);
        }
        match take_lit(s, cur, "]") {
            Some(p) => {
                proof {
                    lemma_subrange_split(s@, pos as int, cur as int, p as int);
                    assert(s@.subrange(pos as int, p as int) == enc_devs(snap_view(out@))
                        + seq![']']);
                }
                return Some((out, p));
            },
            None => {
                proof {
                    if ok {
                        let k = out@.len() as int;
                        if gcs.skip(k).len() == 0 {
                            assert(enc_devs_rest(gcs.skip(k)) == Seq::<char>::empty());
                            assert(s@.skip(cur as int) == seq![']'] + grest);
                            lemma_prefix_lit_at(s@, cur as int, "]"@, grest);
                            assert(false);
                        }
                    }
                }
            },
        }
        proof {
            if ok {
                let k = out@.len() as int;
                let sk = gcs.skip(k);
                let m = seq![','];
                let q = seq![']'];
                let e = enc_dev(sk[0]);
                let rr = enc_devs_rest(sk.drop_first());
                assert(enc_devs_rest(sk) == (m + e) + rr);
                assert((((m + e) + rr) + q) + grest == m + (e + ((rr + q) + grest))) by {
                    vstd::seq_lib::lemma_concat_associative(m, e, rr);
                    vstd::seq_lib::lemma_concat_associative(m, e + rr, q);
                    vstd::seq_lib::lemma_concat_associative(m, (e + rr) + q, grest);
                    vstd::seq_lib::lemma_concat_associative(e, rr, q);
                    vstd::seq_lib::lemma_concat_associative(e, rr + q, grest);
                }
                assert(sk[0] == gcs[k]);
                assert(sk.drop_first() =~= gcs.skip(k + 1));
                assert(s@.skip(cur as int) == ","@ + (enc_dev(gcs[k]) + ((enc_devs_rest(
                    gcs.skip(k + 1),
                ) + seq![']']) + grest)));
                lemma_prefix_lit_at(
                    s@,
                    cur as int,
                    ","@,
                    enc_dev(gcs[k]) + ((enc_devs_rest(gcs.skip(k + 1)) + seq![']']) + grest),
                );
            }
        }
        let p = match take_lit(s, cur, ",") {
            Some(p) => p,
            None => {
                proof {
                    if ok {
                        assert(false);
                    }
                }
                return None;
            },
        };
        proof {
            if ok {
                let k = out@.len() as int;
                lemma_skip_decomp(s@, cur as int, p as int);
                lemma_prefix_cancel(
                    ","@,
                    s@.skip(p as int),
                    enc_dev(gcs[k]) + ((enc_devs_rest(gcs.skip(k + 1)) + seq![']']) + grest),
                );
            }
        }
        let (c, q) = match parse_dev(s, p) {
            Some(x) => x,
            None => {
                proof {
                    if ok {
                        assert(false);
                    }
                }
                return None;
            },
        };
        proof {
            if ok {
                let k = out@.len() as int;
                lemma_skip_decomp(s@, p as int, q as int);
                lemma_enc_dev_unique(
                    c@,
                    gcs[k],
                    s@.skip(q as int),
                    (enc_devs_rest(gcs.skip(k + 1)) + seq![']']) + grest,
                );
            }
        }
        let ghost pv = snap_view(out@);
        proof {
            lemma_enc_devs_push(pv, c@);
            lemma_subrange_split(s@, pos as int, cur as int, p as int);
            lemma_subrange_split(s@, pos as int, p as int, q as int);
        }
        out.push(c);
        cur = q;
        proof {
            assert(snap_view(out@) =~= pv.push(c@));
            assert(s@.subrange(pos as int, cur as int) == enc_devs(snap_view(out@)));
            if ok {
                let k2 = out@.len() as int;
                assert(snap_view(out@) =~= gcs.take(k2));
            }
        }
    }
    proof {
        if ok {
            assert(s@.skip(cur as int).len() == 0);
            assert(((enc_devs_rest(gcs.skip(out@.len() as int)) + seq![']']) + grest).len()
                >= 1);
            assert(false);
        }
    }
    None
}


/// Two snapshots with the same canonical text are the same snapshot.
pub proof fn lemma_enc_snapshot_injective(a: Seq<DevV>, b: Seq<DevV>)
    requires
        enc_snapshot(a) == enc_snapshot(b),
    ensures
        a == b,
{
    broadcast use Seq::add_empty_left, Seq::add_empty_right;

    reveal_strlit("[");
    reveal_strlit("]");
    vstd::seq_lib::lemma_concat_associative("["@, enc_devs(a), "]"@);
    vstd::seq_lib::lemma_concat_associative("["@, enc_devs(b), "]"@);
    lemma_prefix_cancel("["@, enc_devs(a) + "]"@, enc_devs(b) + "]"@);
    assert("]"@ =~= seq![']']);
    assert((enc_devs(a) + seq![']']) + Seq::<char>::empty() == enc_devs(a) + "]"@);
    assert((enc_devs(b) + seq![']']) + Seq::<char>::empty() == enc_devs(b) + "]"@);
    lemma_enc_devs_unique(a, b, Seq::empty(), Seq::empty());
}

/// What a text decodes to: the unique snapshot whose canonical text it is,
/// if it is one.
pub open spec fn decoded_snapshot(text: Seq<char>) -> Option<Seq<DevV>> {
    if exists|devs: Seq<DevV>| text == enc_snapshot(devs) {
        Some(choose|devs: Seq<DevV>| text == enc_snapshot(devs))
    } else {
        None
    }
}

/// Encoding a snapshot and reading the text back yields the snapshot it
/// was made from, whatever it held.
pub proof fn lemma_snapshot_round_trip(devs: Seq<DevV>)
    ensures
        decoded_snapshot(enc_snapshot(devs)) == Some(devs),
{
    assert(exists|d2: Seq<DevV>| enc_snapshot(devs) == enc_snapshot(d2));
    let w = choose|d2: Seq<DevV>| enc_snapshot(devs) == enc_snapshot(d2);
    lemma_enc_snapshot_injective(w, devs);
}

/// Turns persisted text back into a snapshot.  Exactly the canonical texts
/// are accepted: anything else is a corrupt store.
pub fn decode_snapshot(s: &str) -> (r: Result<Vec<Dev>, MonitorError>)
    ensures
        r matches Ok(v) ==> s@ == enc_snapshot(snap_view(v@)) && decoded_snapshot(s@) == Some(
            snap_view(v@),
        ),
        r matches Err(e) ==> e == MonitorError::CorruptDatabase && decoded_snapshot(s@) is None,
{
    broadcast use Seq::add_empty_left, Seq::add_empty_right;

    let ghost ok = exists|devs: Seq<DevV>| s@ == enc_snapshot(devs);
    let ghost gds: Seq<DevV> = if ok {
        choose|devs: Seq<DevV>| s@ == enc_snapshot(devs)
    } else {
        arbitrary()
    };
    proof {
        reveal_strlit("[");
        reveal_strlit("]");
        assert("]"@ =~= seq![']']);
        assert(s@.skip(0) =~= s@);
        if ok {
            let e = enc_devs(gds);
            vstd::seq_lib::lemma_concat_associative("["@, e, "]"@);
            assert(s@ == "["@ + (e + "]"@));
            assert(e + "]"@ == (e + seq![']']) + Seq::<char>::empty());
            lemma_prefix_lit_at(s@, 0, "["@, (e + seq![']']) + Seq::<char>::empty());
        }
    }
    let p1 = match take_lit(s, 0, "[") {
        Some(p) => p,
        None => {
            proof {
                if ok {
                    assert(false);
                }
            }
            return Err(MonitorError::CorruptDatabase);
        },
    };
    proof {
        if ok {
            lemma_skip_decomp(s@, 0, p1 as int);
            lemma_prefix_cancel(
                "["@,
                s@.skip(p1 as int),
                (enc_devs(gds) + seq![']']) + Seq::<char>::empty(),
            );
        }
    }
    let (vd, p2) = match parse_devs_list(s, p1) {
        Some(x) => x,
        None => {
            proof {
                if ok {
                    assert(false);
                }
            }
            return Err(MonitorError::CorruptDatabase);
        },
    };
    proof {
        if ok {
            lemma_skip_decomp(s@, p1 as int, p2 as int);
            lemma_enc_devs_unique(snap_view(vd@), gds, s@.skip(p2 as int), Seq::empty());
        }
    }
    let n = s.unicode_len();
    if p2 != n {
        proof {
            if ok {
                assert(s@.skip(p2 as int).len() == 0);
                assert(false);
            }
        }
        return Err(MonitorError::CorruptDatabase);
    }
    proof {
        lemma_subrange_split(s@, 0, p1 as int, p2 as int);
        assert(s@.subrange(0, n as int) =~= s@);
        let sv = snap_view(vd@);
        let e = enc_devs(sv);
        vstd::seq_lib::lemma_concat_associative("["@, e, seq![']']);
        assert(s@ == ("["@ + e) + seq![']']);
        assert(s@ == enc_snapshot(sv));
        assert(exists|devs: Seq<DevV>| s@ == enc_snapshot(devs));
        let w = choose|devs: Seq<DevV>| s@ == enc_snapshot(devs);
        lemma_enc_snapshot_injective(w, sv);
    }
    Ok(vd)
}

} // verus!
