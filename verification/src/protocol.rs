//! Protocol-level values: the publish message, the small acknowledgement
//! packets, and MQTT topic/filter matching with `+` and `#` wildcards.
use vstd::prelude::*;
use vstd::string::StrSliceExecFns;

verus! {

/// Mathematical image of a [`Publish`].
#[verifier::ext_equal]
pub struct PublishView {
    pub dup: bool,
    pub qos: u8,
    pub retain: bool,
    pub topic: Seq<char>,
    pub pkid: u16,
    pub payload: Seq<u8>,
}

/// An application message: concrete topic, payload bytes, quality of service
/// (0, 1 or 2), retain flag and packet identifier (meaningful for QoS >= 1).
#[derive(Debug)]
pub struct Publish {
    pub dup: bool,
    pub qos: u8,
    pub retain: bool,
    pub topic: String,
    pub pkid: u16,
    pub payload: Vec<u8>,
}

impl View for Publish {
    type V = PublishView;

    open spec fn view(&self) -> PublishView {
        PublishView {
            dup: self.dup,
            qos: self.qos,
            retain: self.retain,
            topic: self.topic@,
            pkid: self.pkid,
            payload: self.payload@,
        }
    }
}

impl DeepView for Publish {
    type V = PublishView;

    open spec fn deep_view(&self) -> PublishView {
        self.view()
    }
}

impl Clone for Publish {
    fn clone(&self) -> (r: Self)
        ensures
            r@ == self@,
    {
        Publish {
            dup: self.dup,
            qos: self.qos,
            retain: self.retain,
            topic: self.topic.clone(),
            pkid: self.pkid,
            payload: self.payload.clone(),
        }
    }
}

/// Size of a publish in bytes as metered by the logs: a small fixed overhead
/// plus topic bytes plus payload bytes, saturating at `usize::MAX`.
pub open spec fn publish_size_spec(p: PublishView) -> int {
    let exact = 4 + (vstd::utf8::encode_utf8(p.topic).len() as usize) + p.payload.len();
    if exact <= usize::MAX {
        exact as int
    } else {
        usize::MAX as int
    }
}

impl Publish {
    /// Metered size of this message in bytes.
    pub fn size(&self) -> (r: usize)
        ensures
            r == publish_size_spec(self@),
    {
        let t = self.topic.as_str().len();
        let p = self.payload.len();
        let s = match t.checked_add(p) {
            Some(tp) => match tp.checked_add(4) {
                Some(all) => all,
                None => usize::MAX,
            },
            None => usize::MAX,
        };
        s
    }
}

/// Splits a character sequence into its `/`-separated levels; empty levels
/// are kept, so `"a"` gives one level and `"/a"` gives two.
pub open spec fn levels_of(s: Seq<char>) -> Seq<Seq<char>>
    decreases s.len(),
{
    if s.len() == 0 {
        seq![Seq::<char>::empty()]
    } else if s.last() == '/' {
        levels_of(s.drop_last()).push(Seq::<char>::empty())
    } else {
        let l = levels_of(s.drop_last());
        l.update(l.len() - 1, l.last().push(s.last()))
    }
}

pub proof fn lemma_levels_of_nonempty(s: Seq<char>)
    ensures
        levels_of(s).len() >= 1,
    decreases s.len(),
{
    if s.len() != 0 {
        lemma_levels_of_nonempty(s.drop_last());
    }
}

/// One matching step per filter level: `#` swallows the remaining topic
/// levels (including none), `+` consumes exactly one topic level, and any
/// other level must be equal to the topic level in that position.
pub open spec fn match_levels(t: Seq<Seq<char>>, f: Seq<Seq<char>>) -> bool
    decreases f.len(),
{
    if f.len() == 0 {
        t.len() == 0
    } else if f[0] == seq!['#'] {
        true
    } else if t.len() == 0 {
        false
    } else if f[0] == seq!['+'] {
        match_levels(t.skip(1), f.skip(1))
    } else {
        t[0] == f[0] && match_levels(t.skip(1), f.skip(1))
    }
}

/// MQTT v5 topic/filter matching: level-wise matching of the `/`-separated
/// levels, except that a topic whose first character is `$` (a system topic)
/// never matches a filter that begins with a wildcard.
pub open spec fn matches_spec(topic: Seq<char>, filter: Seq<char>) -> bool {
    if topic.len() > 0 && topic[0] == '$' && filter.len() > 0 && (filter[0] == '+' || filter[0]
        == '#') {
        false
    } else {
        match_levels(levels_of(topic), levels_of(filter))
    }
}

proof fn lemma_deep_view_push(pre: Vec<Vec<char>>, post: Vec<Vec<char>>, x: Vec<char>)
    requires
        post@ == pre@.push(x),
    ensures
        post.deep_view() =~= pre.deep_view().push(x@),
{
    assert forall|i: int| 0 <= i < post.deep_view().len() implies post.deep_view()[i]
        == pre.deep_view().push(x@)[i] by {
        if i < pre@.len() {
            assert(post@[i] == pre@[i]);
        } else {
            assert(post@[i] == x);
        }
    }
}

fn char_vec_eq(a: &Vec<char>, b: &Vec<char>) -> (r: bool)
    ensures
        r == (a@ == b@),
{
    if a.len() != b.len() {
        assert(a@ != b@);
        return false;
    }
    let n = a.len();
    let mut i: usize = 0;
    while i < n
        invariant
            n == a.len() == b.len(),
            i <= n,
            forall|j: int| 0 <= j < i ==> a@[j] == b@[j],
        decreases n - i,
    {
        if a[i] != b[i] {
            return false;
        }
        i += 1;
    }
    proof {
        assert(a@ =~= b@);
    }
    true
}

fn is_single(v: &Vec<char>, c: char) -> (r: bool)
    ensures
        r == (v@ == seq![c]),
{
    if v.len() == 1 && v[0] == c {
        proof {
            assert(v@ =~= seq![c]);
        }
        true
    } else {
        proof {
            if v@ == seq![c] {
                assert(v@.len() == 1);
            }
        }
        false
    }
}

/// Splits a string into its `/`-separated levels.
fn split_levels(s: &str) -> (r: Vec<Vec<char>>)
    ensures
        r.deep_view() == levels_of(s@),
{
    let n = s.unicode_len();
    let mut out: Vec<Vec<char>> = Vec::new();
    let mut cur: Vec<char> = Vec::new();
    let mut i: usize = 0;
    proof {
        assert(s@.take(0) =~= Seq::<char>::empty());
        assert(out.deep_view().push(cur@) =~= levels_of(s@.take(0)));
    }
    while i < n
        invariant
            n == s@.len(),
            i <= n,
            out.deep_view().push(cur@) == levels_of(s@.take(i as int)),
        decreases n - i,
    {
        let c = s.get_char(i);
        let ghost prefix = s@.take(i as int);
        let ghost next_prefix = s@.take(i as int + 1);
        proof {
            assert(next_prefix.drop_last() =~= prefix);
            assert(next_prefix.last() == c);
            lemma_levels_of_nonempty(prefix);
        }
        if c == '/' {
            let ghost pre_out = out;
            let ghost pre_cur = cur;
            out.push(cur);
            cur = Vec::new();
            proof {
                assert(levels_of(next_prefix) == levels_of(prefix).push(Seq::<char>::empty()));
                lemma_deep_view_push(pre_out, out, pre_cur);
                assert(out.deep_view().push(cur@) =~= levels_of(prefix).push(
                    Seq::<char>::empty(),
                ));
            }
        } else {
            let ghost old_cur = cur@;
            cur.push(c);
            proof {
                let l = levels_of(prefix);
                assert(levels_of(next_prefix) == l.update(l.len() - 1, l.last().push(c)));
                assert(l == out.deep_view().push(old_cur));
                assert(l.last() == old_cur);
                assert(l.update(l.len() - 1, old_cur.push(c)) =~= out.deep_view().push(
                    old_cur.push(c),
                ));
            }
        }
        i += 1;
    }
    proof {
        assert(s@.take(n as int) =~= s@);
    }
    let ghost pre_out = out;
    let ghost pre_cur = cur;
    out.push(cur);
    proof {
        lemma_deep_view_push(pre_out, out, pre_cur);
    }
    out
}

fn match_levels_exec(t: &Vec<Vec<char>>, f: &Vec<Vec<char>>) -> (r: bool)
    ensures
        r == match_levels(t.deep_view(), f.deep_view()),
{
    let ghost tv = t.deep_view();
    let ghost fv = f.deep_view();
    let mut i: usize = 0;
    proof {
        assert(tv.skip(0) =~= tv);
        assert(fv.skip(0) =~= fv);
    }
    loop
        invariant
            tv == t.deep_view(),
            fv == f.deep_view(),
            i <= tv.len(),
            i <= fv.len(),
            tv.len() == t.len(),
            fv.len() == f.len(),
            match_levels(tv, fv) == match_levels(tv.skip(i as int), fv.skip(i as int)),
        decreases fv.len() - i,
    {
        let ghost ts = tv.skip(i as int);
        let ghost fs = fv.skip(i as int);
        if i == f.len() {
            proof {
                assert(fs.len() == 0);
            }
            return i == t.len();
        }
        proof {
            assert(fs[0] == fv[i as int]);
            assert(fv[i as int] =~= f@[i as int]@);
        }
        if is_single(&f[i], '#') {
            return true;
        }
        if i == t.len() {
            proof {
                assert(ts.len() == 0);
            }
            return false;
        }
        proof {
            assert(ts[0] == tv[i as int]);
            assert(tv[i as int] =~= t@[i as int]@);
            assert(ts.skip(1) =~= tv.skip(i as int + 1));
            assert(fs.skip(1) =~= fv.skip(i as int + 1));
        }
        if is_single(&f[i], '+') {
            i += 1;
        } else if char_vec_eq(&t[i], &f[i]) {
            i += 1;
        } else {
            return false;
        }
    }
}

/// Tests a concrete topic against an MQTT filter.
pub fn matches(topic: &str, filter: &str) -> (r: bool)
    ensures
        r == matches_spec(topic@, filter@),
{
    if topic.unicode_len() > 0 && filter.unicode_len() > 0 {
        let tc = topic.get_char(0);
        let fc = filter.get_char(0);
        if tc == '$' && (fc == '+' || fc == '#') {
            return false;
        }
    }
    let t = split_levels(topic);
    let f = split_levels(filter);
    match_levels_exec(&t, &f)
}

/// Connection acknowledgement.
#[derive(Clone, Copy, PartialEq, Eq, Structural, Debug)]
pub struct ConnAck {
    pub session_present: bool,
    pub code: u8,
}

/// Subscribe acknowledgement.
#[derive(Debug)]
pub struct SubAck {
    pub pkid: u16,
    pub return_codes: Vec<u8>,
}

/// Publish acknowledgement (QoS 1).
#[derive(Clone, Copy, PartialEq, Eq, Structural, Debug)]
pub struct PubAck {
    pub pkid: u16,
    pub reason: u8,
}

/// Publish received (QoS 2, first leg).
#[derive(Clone, Copy, PartialEq, Eq, Structural, Debug)]
pub struct PubRec {
    pub pkid: u16,
    pub reason: u8,
}

/// Publish release (QoS 2, second leg).
#[derive(Clone, Copy, PartialEq, Eq, Structural, Debug)]
pub struct PubRel {
    pub pkid: u16,
    pub reason: u8,
}

/// Ping response.
#[derive(Clone, Copy, PartialEq, Eq, Structural, Debug)]
pub struct PingResp {}

/// Unsubscribe acknowledgement.
#[derive(Debug)]
pub struct UnsubAck {
    pub pkid: u16,
    pub reasons: Vec<u8>,
}

} // verus!
