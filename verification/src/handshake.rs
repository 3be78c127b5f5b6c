//! How the dump display introduces itself to the daemon.
use crate::cli::Cli;
use crate::display_proto::{ConsumerCaps, Event, Received, Request};
use crate::vk_consumer::{self, NegotiateWords, VkContext};
use std::collections::BTreeMap;
use vstd::prelude::*;

verus! {

// ---------------------------------------------------------------------------
// Advertised pairs
// ---------------------------------------------------------------------------

/// The modifiers that `pairs` lists for a fourcc, in order.
pub open spec fn modifiers_of(pairs: Seq<(u32, u64)>, fourcc: u32) -> Seq<u64>
    decreases pairs.len(),
{
    if pairs.len() == 0 {
        Seq::empty()
    } else {
        let head = modifiers_of(pairs.drop_last(), fourcc);
        if pairs.last().0 == fourcc {
            head.push(pairs.last().1)
        } else {
            head
        }
    }
}

/// `fourccs` names the fourccs of `pairs`, each once and in ascending order.
pub open spec fn lists_fourccs(fourccs: Seq<u32>, pairs: Seq<(u32, u64)>) -> bool {
    &&& forall|i: int, j: int|
        0 <= i < j < fourccs.len() ==> #[trigger] fourccs[i] < #[trigger] fourccs[j]
    &&& forall|i: int| 0 <= i < fourccs.len() ==> has_fourcc(pairs, #[trigger] fourccs[i])
    &&& forall|k: int| 0 <= k < pairs.len() ==> fourccs.contains((#[trigger] pairs[k]).0)
}

/// Whether a fourcc occurs among the pairs.
pub open spec fn has_fourcc(pairs: Seq<(u32, u64)>, fourcc: u32) -> bool {
    exists|k: int| 0 <= k < pairs.len() && (#[trigger] pairs[k]).0 == fourcc
}

/// The modifiers of the first `n` fourccs, one fourcc after the other.
pub open spec fn flat_modifiers(pairs: Seq<(u32, u64)>, fourccs: Seq<u32>, n: int) -> Seq<u64>
    decreases n,
{
    if n <= 0 {
        Seq::empty()
    } else {
        flat_modifiers(pairs, fourccs, n - 1) + modifiers_of(pairs, fourccs[n - 1])
    }
}

/// Numbers that a map hands out in its own order ascend.
proof fn lemma_increasing()
    ensures
        forall|s: Seq<u32>, i: int, j: int|
            vstd::std_specs::btree::increasing_seq(s) && 0 <= i < j < s.len() ==> #[trigger] s[i]
                < #[trigger] s[j],
{
    broadcast use vstd::laws_cmp::group_laws_cmp;

    assert(vstd::laws_cmp::obeys_cmp::<u32>());
    assert forall|s: Seq<u32>, i: int, j: int|
        vstd::std_specs::btree::increasing_seq(s) && 0 <= i < j < s.len() implies #[trigger] s[i]
        < #[trigger] s[j] by {
        assert(vstd::std_specs::cmp::OrdSpec::cmp_spec(&s[i], &s[j]) is Less);
    }
}

/// The pairs by fourcc: each fourcc with its modifiers in order.
fn grouped(pairs: &Vec<(u32, u64)>) -> (by_fourcc: BTreeMap<u32, Vec<u64>>)
    ensures
        forall|f: u32| #[trigger] by_fourcc@.contains_key(f) <==> has_fourcc(pairs@, f),
        forall|f: u32| #[trigger]
            by_fourcc@.contains_key(f) ==> by_fourcc@[f]@ == modifiers_of(pairs@, f),
{
    let mut by_fourcc: BTreeMap<u32, Vec<u64>> = BTreeMap::new();
    let mut k: usize = 0;
    while k < pairs.len()
        invariant
            k <= pairs@.len(),
            forall|f: u32| #[trigger]
                by_fourcc@.contains_key(f) <==> has_fourcc(pairs@.take(k as int), f),
            forall|f: u32| #[trigger]
                by_fourcc@.contains_key(f) ==> by_fourcc@[f]@ == modifiers_of(
                    pairs@.take(k as int),
                    f,
                ),
        decreases pairs@.len() - k,
    {
        let ghost seen = pairs@.take(k as int);
        let ghost now = pairs@.take(k + 1);
        let (fourcc, modifier) = pairs[k];
        let mut modifiers: Vec<u64> = match by_fourcc.remove(&fourcc) {
            Some(list) => list,
            None => Vec::new(),
        };
        proof {
            assert(now.drop_last() =~= seen);
            assert(now[k as int].0 == fourcc);
            if !has_fourcc(seen, fourcc) {
                lemma_no_modifiers(seen, fourcc);
            }
            assert forall|f: u32| has_fourcc(now, f) <==> #[trigger] has_fourcc(seen, f) || f
                == fourcc by {
                if has_fourcc(seen, f) {
                    let m = choose|m: int| 0 <= m < seen.len() && (#[trigger] seen[m]).0 == f;
                    assert(now[m].0 == f);
                }
                if has_fourcc(now, f) && f != fourcc {
                    let m = choose|m: int| 0 <= m < now.len() && (#[trigger] now[m]).0 == f;
                    assert(seen[m].0 == f);
                }
            }
        }
        modifiers.push(modifier);
        by_fourcc.insert(fourcc, modifiers);
        k += 1;
    }
    assert(pairs@.take(k as int) =~= pairs@);
    by_fourcc
}

/// A fourcc that does not occur has no modifiers.
proof fn lemma_no_modifiers(pairs: Seq<(u32, u64)>, fourcc: u32)
    requires
        !has_fourcc(pairs, fourcc),
    ensures
        modifiers_of(pairs, fourcc).len() == 0,
    decreases pairs.len(),
{
    if pairs.len() > 0 {
        assert(pairs[pairs.len() - 1].0 != fourcc);
        let head = pairs.drop_last();
        assert forall|k: int| 0 <= k < head.len() implies (#[trigger] head[k]).0 != fourcc by {
            assert(pairs[k] == head[k]);
        }
        lemma_no_modifiers(head, fourcc);
    }
}

/// `caps` sends exactly the pairs, grouped by fourcc.
pub open spec fn sends_pairs(caps: ConsumerCaps, pairs: Seq<(u32, u64)>, usage: u32) -> bool {
    &&& lists_fourccs(caps.fourccs@, pairs)
    &&& caps.mod_counts@ == Seq::new(
        caps.fourccs@.len(),
        |i: int| modifiers_of(pairs, caps.fourccs@[i]).len() as u32,
    )
    &&& caps.modifiers@ == flat_modifiers(pairs, caps.fourccs@, caps.fourccs@.len() as int)
    &&& caps.usages@ == Seq::new(caps.modifiers@.len(), |i: int| usage)
    &&& caps.plane_counts@ == Seq::new(caps.modifiers@.len(), |i: int| 1u32)
}

/// The flat list of the first fourccs does not depend on the later ones.
proof fn lemma_flat_depends_on_prefix(
    pairs: Seq<(u32, u64)>,
    a: Seq<u32>,
    b: Seq<u32>,
    n: int,
)
    requires
        0 <= n <= a.len(),
        n <= b.len(),
        forall|i: int| 0 <= i < n ==> a[i] == b[i],
    ensures
        flat_modifiers(pairs, a, n) == flat_modifiers(pairs, b, n),
    decreases n,
{
    if n > 0 {
        lemma_flat_depends_on_prefix(pairs, a, b, n - 1);
    }
}

// ---------------------------------------------------------------------------
// Requests
// ---------------------------------------------------------------------------

/// The protocol that is spoken and the version of this program.
#[derive(Debug)]
pub struct ProtocolInfo {
    pub protocol: String,
    pub protocol_version: u32,
    pub client_version: String,
}

/// A request that introduces the program.
pub open spec fn introduces(request: Request, cli: Cli, info: ProtocolInfo) -> bool {
    request matches Request::Hello {
        protocol,
        client_name,
        client_version,
        client_protocol_version,
    } && protocol@ == info.protocol@ && client_name@ == cli.name@ && client_version@
        == info.client_version@ && client_protocol_version == info.protocol_version
}

/// The first request.
pub fn hello(cli: &Cli, info: &ProtocolInfo) -> (request: Request)
    ensures
        introduces(request, *cli, *info),
{
    Request::Hello {
        protocol: info.protocol.clone(),
        client_name: cli.name.clone(),
        client_version: info.client_version.clone(),
        client_protocol_version: info.protocol_version,
    }
}

/// A request that registers a display without an instance, of a fixed mode, on
/// the device's render node.
pub open spec fn registers(request: Request, cli: Cli, ctx: VkContext) -> bool {
    request matches Request::RegisterDisplay {
        name,
        instance_id,
        width,
        height,
        refresh_mhz,
        drm_render_major,
        drm_render_minor,
        properties,
    } && name@ == cli.name@ && instance_id@ == Seq::<char>::empty() && width == 1920 && height
        == 1080 && refresh_mhz == 60_000 && drm_render_major == ctx.drm_render_major
        && drm_render_minor == ctx.drm_render_minor && properties@.len() == 0
}

/// The second request.
pub fn register_display(cli: &Cli, ctx: &VkContext) -> (request: Request)
    ensures
        registers(request, *cli, *ctx),
{
    Request::RegisterDisplay {
        name: cli.name.clone(),
        instance_id: String::new(),
        width: 1920,
        height: 1080,
        refresh_mhz: 60_000,
        drm_render_major: ctx.drm_render_major,
        drm_render_minor: ctx.drm_render_minor,
        properties: Vec::new(),
    }
}

/// `caps` tells which device takes the pairs, and how.
pub open spec fn tells_device(caps: ConsumerCaps, ctx: VkContext, words: NegotiateWords) -> bool {
    &&& caps.device_uuid@ == vk_consumer::uuid_words(ctx.device_uuid@)
    &&& caps.driver_uuid@ == vk_consumer::uuid_words(ctx.driver_uuid@)
    &&& caps.drm_render_major == ctx.drm_render_major
    &&& caps.drm_render_minor == ctx.drm_render_minor
    &&& caps.mem_hints == words.mem_hint_host_visible
    &&& caps.sync_caps == words.sync_view()
    &&& caps.color_caps == words.default_color
    &&& caps.extent_max_w == vk_consumer::EXTENT_MAX
    &&& caps.extent_max_h == vk_consumer::EXTENT_MAX
}

/// The third request: exactly the pairs that were asked for, grouped by
/// fourcc.
pub fn consumer_caps(cli: &Cli, ctx: &VkContext, words: &NegotiateWords) -> (caps: ConsumerCaps)
    ensures
        sends_pairs(caps, cli.advertise@, words.usage_view()),
        tells_device(caps, *ctx, *words),
{
    let by_fourcc: BTreeMap<u32, Vec<u64>> = grouped(&cli.advertise);
    let ghost pairs = cli.advertise@;
    let usage: u32 = words.usage();
    let mut fourccs: Vec<u32> = Vec::new();
    let mut mod_counts: Vec<u32> = Vec::new();
    let mut modifiers: Vec<u64> = Vec::new();
    let mut usages: Vec<u32> = Vec::new();
    let mut plane_counts: Vec<u32> = Vec::new();
    for entry in it: by_fourcc.iter()
        invariant
            fourccs@.len() == it.index(),
            forall|i: int|
                #![trigger fourccs@[i]]
                #![trigger it.seq()[i]]
                0 <= i < fourccs@.len() ==> fourccs@[i] == *it.seq()[i].0,
            forall|i: int|
                0 <= i < fourccs@.len() ==> by_fourcc@.contains_key(#[trigger] fourccs@[i]),
            forall|f: u32| #[trigger]
                by_fourcc@.contains_key(f) ==> it.seq().contains((&f, &by_fourcc@[f])),
            vstd::std_specs::btree::increasing_seq(
                it.seq().map_values(|kv: (&u32, &Vec<u64>)| *kv.0),
            ),
            forall|i: int, j: int|
                0 <= i < j < fourccs@.len() ==> #[trigger] fourccs@[i] < #[trigger] fourccs@[j],
            it.index() == it.seq().len() ==> forall|f: u32| #[trigger]
                by_fourcc@.contains_key(f) ==> fourccs@.contains(f),
            forall|f: u32| #[trigger]
                by_fourcc@.contains_key(f) ==> by_fourcc@[f]@ == modifiers_of(pairs, f),
            mod_counts@ == Seq::new(
                fourccs@.len(),
                |k: int| modifiers_of(pairs, fourccs@[k]).len() as u32,
            ),
            modifiers@ == flat_modifiers(pairs, fourccs@, fourccs@.len() as int),
            usages@ == Seq::new(modifiers@.len(), |k: int| usage),
            plane_counts@ == Seq::new(modifiers@.len(), |k: int| 1u32),
    {
        let (fourcc, mods) = entry;
        assert(by_fourcc@.contains_key(*fourcc) && by_fourcc@[*fourcc] == *mods);
        let ghost before = fourccs@;
        let ghost flat = modifiers@;
        fourccs.push(*fourcc);
        #[verifier::truncate]
        let narrow: u32 = mods.len() as u32;
        mod_counts.push(narrow);
        let mut k: usize = 0;
        while k < mods.len()
            invariant
                k <= mods@.len(),
                modifiers@ == flat + mods@.take(k as int),
                usages@ == Seq::new(modifiers@.len(), |k: int| usage),
                plane_counts@ == Seq::new(modifiers@.len(), |k: int| 1u32),
            decreases mods@.len() - k,
        {
            modifiers.push(mods[k]);
            usages.push(usage);
            plane_counts.push(1);
            k += 1;
            assert(modifiers@ =~= flat + mods@.take(k as int));
        }
        assert(mods@.take(k as int) =~= mods@);
        proof {
            lemma_flat_depends_on_prefix(pairs, before, fourccs@, before.len() as int);
            lemma_increasing();
        }
        assert forall|i: int, j: int| 0 <= i < j < fourccs@.len() implies #[trigger] fourccs@[i]
            < #[trigger] fourccs@[j] by {
            assert(it.seq().map_values(|kv: (&u32, &Vec<u64>)| *kv.0)[i] < it.seq().map_values(
                |kv: (&u32, &Vec<u64>)| *kv.0,
            )[j]);
        }
        assert forall|f: u32|
            it.index() + 1 == it.seq().len() && #[trigger] by_fourcc@.contains_key(
                f,
            ) implies fourccs@.contains(f) by {
            assert(it.seq().contains((&f, &by_fourcc@[f])));
            assert forall|i: int| 0 <= i < fourccs@.len() implies fourccs@[i] == *(
            #[trigger] it.seq()[i]).0 && fourccs@.contains(fourccs@[i]) by {}
        }
    }
    assert forall|k: int| 0 <= k < pairs.len() implies fourccs@.contains(
        (#[trigger] pairs[k]).0,
    ) by {
        assert(has_fourcc(pairs, pairs[k].0));
        assert(by_fourcc@.contains_key(pairs[k].0));
    }
    ConsumerCaps {
        fourccs,
        mod_counts,
        modifiers,
        usages,
        plane_counts,
        device_uuid: vk_consumer::bytes16_to_u32x4(&ctx.device_uuid),
        driver_uuid: vk_consumer::bytes16_to_u32x4(&ctx.driver_uuid),
        drm_render_major: ctx.drm_render_major,
        drm_render_minor: ctx.drm_render_minor,
        mem_hints: words.mem_hint_host_visible,
        sync_caps: words.sync(),
        color_caps: words.default_color,
        extent_max_w: vk_consumer::EXTENT_MAX,
        extent_max_h: vk_consumer::EXTENT_MAX,
    }
}

// ---------------------------------------------------------------------------
// Steps
// ---------------------------------------------------------------------------

/// What to do next.
#[derive(Debug, Clone, PartialEq, Eq)]
pub enum HandshakeStep {
    /// Send [`hello`].
    SendHello,
    AwaitWelcome,
    /// Send [`register_display`].
    SendRegister,
    AwaitAccepted,
    /// Send [`consumer_caps`].
    SendCaps { display_id: u64 },
    Done { display_id: u64 },
    Failed { error: HandshakeError },
}

/// Why a handshake failed.
#[derive(Debug, Clone, PartialEq, Eq)]
pub enum HandshakeError {
    SendHello,
    ReceiveWelcome,
    /// Something else came than a welcome.
    NoWelcome { opcode: u32 },
    SendRegister,
    ReceiveAccepted,
    /// The daemon refused the display, in these words.
    Refused { code: u32, message: String },
    /// Something else came than an answer to the registration.
    NotAccepted { opcode: u32 },
    SendCaps,
}

/// The step after a request was sent, or could not be.
pub open spec fn after_send(step: HandshakeStep, ok: bool) -> HandshakeStep {
    match step {
        HandshakeStep::SendHello => if ok {
            HandshakeStep::AwaitWelcome
        } else {
            HandshakeStep::Failed { error: HandshakeError::SendHello }
        },
        HandshakeStep::SendRegister => if ok {
            HandshakeStep::AwaitAccepted
        } else {
            HandshakeStep::Failed { error: HandshakeError::SendRegister }
        },
        HandshakeStep::SendCaps { display_id } => if ok {
            HandshakeStep::Done { display_id }
        } else {
            HandshakeStep::Failed { error: HandshakeError::SendCaps }
        },
        _ => step,
    }
}

/// The step after a message was received, or none could be.
pub open spec fn after_receive(step: HandshakeStep, reply: Option<Received>) -> HandshakeStep {
    match step {
        HandshakeStep::AwaitWelcome => match reply {
            None => HandshakeStep::Failed { error: HandshakeError::ReceiveWelcome },
            Some(r) => match r.event {
                Event::Welcome { .. } => HandshakeStep::SendRegister,
                _ => HandshakeStep::Failed {
                    error: HandshakeError::NoWelcome { opcode: r.opcode },
                },
            },
        },
        HandshakeStep::AwaitAccepted => match reply {
            None => HandshakeStep::Failed { error: HandshakeError::ReceiveAccepted },
            Some(r) => match r.event {
                Event::DisplayAccepted { display_id } => HandshakeStep::SendCaps { display_id },
                Event::Error { code, message } => HandshakeStep::Failed {
                    error: HandshakeError::Refused { code, message },
                },
                _ => HandshakeStep::Failed {
                    error: HandshakeError::NotAccepted { opcode: r.opcode },
                },
            },
        },
        _ => step,
    }
}

/// Goes on after a request was sent, or could not be.
pub fn sent(step: HandshakeStep, ok: bool) -> (next: HandshakeStep)
    ensures
        next == after_send(step, ok),
{
    match step {
        HandshakeStep::SendHello => if ok {
            HandshakeStep::AwaitWelcome
        } else {
            HandshakeStep::Failed { error: HandshakeError::SendHello }
        },
        HandshakeStep::SendRegister => if ok {
            HandshakeStep::AwaitAccepted
        } else {
            HandshakeStep::Failed { error: HandshakeError::SendRegister }
        },
        HandshakeStep::SendCaps { display_id } => if ok {
            HandshakeStep::Done { display_id }
        } else {
            HandshakeStep::Failed { error: HandshakeError::SendCaps }
        },
        _ => step,
    }
}

/// Goes on after a message was received, or none could be.
pub fn received(step: HandshakeStep, reply: Option<Received>) -> (next: HandshakeStep)
    ensures
        next == after_receive(step, reply),
{
    match step {
        HandshakeStep::AwaitWelcome => match reply {
            None => HandshakeStep::Failed { error: HandshakeError::ReceiveWelcome },
            Some(r) => match r.event {
                Event::Welcome { .. } => HandshakeStep::SendRegister,
                _ => HandshakeStep::Failed {
                    error: HandshakeError::NoWelcome { opcode: r.opcode },
                },
            },
        },
        HandshakeStep::AwaitAccepted => match reply {
            None => HandshakeStep::Failed { error: HandshakeError::ReceiveAccepted },
            Some(r) => match r.event {
                Event::DisplayAccepted { display_id } => HandshakeStep::SendCaps { display_id },
                Event::Error { code, message } => HandshakeStep::Failed {
                    error: HandshakeError::Refused { code, message },
                },
                _ => HandshakeStep::Failed {
                    error: HandshakeError::NotAccepted { opcode: r.opcode },
                },
            },
        },
        _ => step,
    }
}

// ---------------------------------------------------------------------------
// Laws
// ---------------------------------------------------------------------------

/// A pair is among those sent exactly if it was asked for: its modifier is
/// listed for its fourcc.
pub proof fn law_sent_pairs_are_those_asked_for(
    pairs: Seq<(u32, u64)>,
    fourcc: u32,
    modifier: u64,
)
    ensures
        pairs.contains((fourcc, modifier)) <==> modifiers_of(pairs, fourcc).contains(modifier),
    decreases pairs.len(),
{
    if pairs.len() > 0 {
        let rest = pairs.drop_last();
        law_sent_pairs_are_those_asked_for(rest, fourcc, modifier);
        let all = modifiers_of(pairs, fourcc);
        let head = modifiers_of(rest, fourcc);
        if pairs.contains((fourcc, modifier)) {
            let k = pairs.index_of((fourcc, modifier));
            if k < rest.len() {
                assert(rest[k] == (fourcc, modifier));
                let i = head.index_of(modifier);
                assert(all[i] == modifier);
            } else {
                assert(all[head.len() as int] == modifier);
            }
        }
        if all.contains(modifier) {
            let i = all.index_of(modifier);
            if i < head.len() {
                assert(head[i] == modifier);
                let k = rest.index_of((fourcc, modifier));
                assert(pairs[k] == (fourcc, modifier));
            } else {
                assert(pairs[pairs.len() - 1] == (fourcc, modifier));
            }
        }
    }
}

/// How many modifiers belong to the first `n` fourccs.
pub open spec fn modifiers_before(pairs: Seq<(u32, u64)>, fourccs: Seq<u32>, n: int) -> int {
    flat_modifiers(pairs, fourccs, n).len() as int
}

proof fn lemma_flat_prefix(pairs: Seq<(u32, u64)>, fourccs: Seq<u32>, n: int, m: int)
    requires
        0 <= n <= m,
    ensures
        modifiers_before(pairs, fourccs, n) <= modifiers_before(pairs, fourccs, m),
        flat_modifiers(pairs, fourccs, m).take(modifiers_before(pairs, fourccs, n))
            == flat_modifiers(pairs, fourccs, n),
    decreases m - n,
{
    if n < m {
        lemma_flat_prefix(pairs, fourccs, n, m - 1);
        let short = flat_modifiers(pairs, fourccs, m - 1);
        assert(flat_modifiers(pairs, fourccs, m).take(modifiers_before(pairs, fourccs, n))
            =~= short.take(modifiers_before(pairs, fourccs, n)));
    } else {
        assert(flat_modifiers(pairs, fourccs, m).take(modifiers_before(pairs, fourccs, n))
            =~= flat_modifiers(pairs, fourccs, n));
    }
}

/// A peer that cuts the flat list by the counts finds the modifiers of each
/// fourcc, as long as no count overflows its 32 bits.
pub proof fn law_counts_cut_the_flat_list(caps: ConsumerCaps, pairs: Seq<(u32, u64)>, usage: u32, i: int)
    requires
        sends_pairs(caps, pairs, usage),
        pairs.len() <= u32::MAX,
        0 <= i < caps.fourccs@.len(),
    ensures
        ({
            let start = modifiers_before(pairs, caps.fourccs@, i);
            &&& 0 <= start <= start + caps.mod_counts@[i] <= caps.modifiers@.len()
            &&& caps.modifiers@.subrange(start, start + caps.mod_counts@[i]) == modifiers_of(
                pairs,
                caps.fourccs@[i],
            )
            &&& modifiers_before(pairs, caps.fourccs@, i + 1) == start + caps.mod_counts@[i]
        }),
{
    let f = caps.fourccs@;
    let n = f.len() as int;
    let mods = modifiers_of(pairs, f[i]);
    lemma_modifiers_of_len(pairs, f[i]);
    lemma_flat_prefix(pairs, f, i + 1, n);
    let start = modifiers_before(pairs, f, i);
    let upto = flat_modifiers(pairs, f, i + 1);
    assert(upto.len() == start + mods.len());
    assert(caps.modifiers@.subrange(start, start + mods.len()) =~= upto.subrange(
        start,
        start + mods.len(),
    )) by {
        assert forall|k: int| 0 <= k < upto.len() implies caps.modifiers@[k] == upto[k] by {
            assert(caps.modifiers@.take(upto.len() as int)[k] == upto[k]);
        }
    }
    assert(upto.subrange(start, start + mods.len()) =~= mods);
}

proof fn lemma_modifiers_of_len(pairs: Seq<(u32, u64)>, fourcc: u32)
    ensures
        modifiers_of(pairs, fourcc).len() <= pairs.len(),
    decreases pairs.len(),
{
    if pairs.len() > 0 {
        lemma_modifiers_of_len(pairs.drop_last(), fourcc);
    }
}

proof fn lemma_flat_len_step(pairs: Seq<(u32, u64)>, fourccs: Seq<u32>, n: int, at: int)
    requires
        pairs.len() > 0,
        0 <= n <= fourccs.len(),
        0 <= at < fourccs.len(),
        fourccs[at] == pairs.last().0,
        forall|i: int, j: int|
            0 <= i < j < fourccs.len() ==> #[trigger] fourccs[i] < #[trigger] fourccs[j],
    ensures
        modifiers_before(pairs, fourccs, n) == modifiers_before(pairs.drop_last(), fourccs, n)
            + if at < n {
            1int
        } else {
            0int
        },
    decreases n,
{
    if n > 0 {
        lemma_flat_len_step(pairs, fourccs, n - 1, at);
        if n - 1 != at {
            if n - 1 < at {
                assert(fourccs[n - 1] < fourccs[at]);
            } else {
                assert(fourccs[at] < fourccs[n - 1]);
            }
        }
    }
}

proof fn lemma_flat_len(pairs: Seq<(u32, u64)>, fourccs: Seq<u32>)
    requires
        forall|i: int, j: int|
            0 <= i < j < fourccs.len() ==> #[trigger] fourccs[i] < #[trigger] fourccs[j],
        forall|k: int| 0 <= k < pairs.len() ==> fourccs.contains((#[trigger] pairs[k]).0),
    ensures
        modifiers_before(pairs, fourccs, fourccs.len() as int) == pairs.len(),
    decreases pairs.len(),
{
    if pairs.len() == 0 {
        lemma_flat_of_nothing(pairs, fourccs, fourccs.len() as int);
    } else {
        let rest = pairs.drop_last();
        assert forall|k: int| 0 <= k < rest.len() implies fourccs.contains(
            (#[trigger] rest[k]).0,
        ) by {
            assert(rest[k] == pairs[k]);
        }
        lemma_flat_len(rest, fourccs);
        assert(fourccs.contains(pairs[pairs.len() - 1].0));
        let at = fourccs.index_of(pairs.last().0);
        lemma_flat_len_step(pairs, fourccs, fourccs.len() as int, at);
    }
}

proof fn lemma_flat_of_nothing(pairs: Seq<(u32, u64)>, fourccs: Seq<u32>, n: int)
    requires
        pairs.len() == 0,
    ensures
        flat_modifiers(pairs, fourccs, n).len() == 0,
    decreases n,
{
    if n > 0 {
        lemma_flat_of_nothing(pairs, fourccs, n - 1);
    }
}

/// No pair is lost or doubled on the way: as many modifiers are sent as pairs
/// were asked for.
pub proof fn law_as_many_modifiers_as_pairs(caps: ConsumerCaps, pairs: Seq<(u32, u64)>, usage: u32)
    requires
        sends_pairs(caps, pairs, usage),
    ensures
        caps.modifiers@.len() == pairs.len(),
        caps.usages@.len() == pairs.len(),
        caps.plane_counts@.len() == pairs.len(),
        caps.mod_counts@.len() == caps.fourccs@.len(),
{
    lemma_flat_len(pairs, caps.fourccs@);
}

/// Where a handshake stands after all five exchanges were tried.
pub open spec fn handshake_end(
    hello_sent: bool,
    welcome: Option<Received>,
    register_sent: bool,
    accepted: Option<Received>,
    caps_sent: bool,
) -> HandshakeStep {
    let asked = after_receive(after_send(HandshakeStep::SendHello, hello_sent), welcome);
    let registered = after_receive(after_send(asked, register_sent), accepted);
    after_send(registered, caps_sent)
}

/// A handshake succeeds exactly if every request went out and the daemon
/// answered with a welcome and an acceptance; it then gives the id that the
/// acceptance named.
pub proof fn law_handshake_succeeds_exactly_if_answered(
    hello_sent: bool,
    welcome: Option<Received>,
    register_sent: bool,
    accepted: Option<Received>,
    caps_sent: bool,
    display_id: u64,
)
    ensures
        (handshake_end(hello_sent, welcome, register_sent, accepted, caps_sent)
            == HandshakeStep::Done { display_id }) <==> {
            &&& hello_sent && register_sent && caps_sent
            &&& welcome is Some && welcome->0.event is Welcome
            &&& accepted is Some && accepted->0.event == (Event::DisplayAccepted { display_id })
        },
        handshake_end(hello_sent, welcome, register_sent, accepted, caps_sent) is Done
            || handshake_end(hello_sent, welcome, register_sent, accepted, caps_sent) is Failed,
{
}

/// A handshake that fails does so at its first fault; where the daemon refused
/// the display, with the daemon's own code and words.
pub proof fn law_handshake_reports_the_first_fault(
    hello_sent: bool,
    welcome: Option<Received>,
    register_sent: bool,
    accepted: Option<Received>,
    caps_sent: bool,
    code: u32,
    message: String,
)
    ensures
        ({
            let end = handshake_end(hello_sent, welcome, register_sent, accepted, caps_sent);
            let welcomed = hello_sent && welcome is Some && welcome->0.event is Welcome;
            let answered = welcomed && register_sent && accepted is Some;
            &&& end == (HandshakeStep::Failed { error: HandshakeError::SendHello }) <==> !hello_sent
            &&& end == (HandshakeStep::Failed { error: HandshakeError::ReceiveWelcome })
                <==> hello_sent && welcome is None
            &&& end == (HandshakeStep::Failed { error: HandshakeError::SendRegister })
                <==> welcomed && !register_sent
            &&& end == (HandshakeStep::Failed { error: HandshakeError::ReceiveAccepted })
                <==> welcomed && register_sent && accepted is None
            &&& end == (HandshakeStep::Failed { error: HandshakeError::Refused { code, message } })
                <==> answered && accepted->0.event == (Event::Error { code, message })
            &&& end == (HandshakeStep::Failed { error: HandshakeError::SendCaps }) <==> answered
                && accepted->0.event is DisplayAccepted && !caps_sent
        }),
{
}

/// Whatever else came than a welcome, or than an answer to the registration, is
/// reported by its opcode.
pub proof fn law_other_answers_are_reported_by_opcode(
    hello_sent: bool,
    welcome: Option<Received>,
    register_sent: bool,
    accepted: Option<Received>,
    caps_sent: bool,
    opcode: u32,
)
    ensures
        ({
            let end = handshake_end(hello_sent, welcome, register_sent, accepted, caps_sent);
            let welcomed = hello_sent && welcome is Some && welcome->0.event is Welcome;
            let answered = welcomed && register_sent && accepted is Some;
            &&& end == (HandshakeStep::Failed { error: HandshakeError::NoWelcome { opcode } })
                <==> hello_sent && welcome is Some && !(welcome->0.event is Welcome)
                && welcome->0.opcode == opcode
            &&& end == (HandshakeStep::Failed { error: HandshakeError::NotAccepted { opcode } })
                <==> answered && !(accepted->0.event is DisplayAccepted)
                && !(accepted->0.event is Error) && accepted->0.opcode == opcode
        }),
{
}

/// The steps alternate: what is sent is followed by what is awaited. A step is
/// left only by what it waits for, and the last two are never left.
pub proof fn law_steps_alternate(step: HandshakeStep, ok: bool, reply: Option<Received>)
    ensures
        after_send(HandshakeStep::SendHello, true) is AwaitWelcome,
        after_send(HandshakeStep::SendRegister, true) is AwaitAccepted,
        step is AwaitWelcome || step is AwaitAccepted ==> after_send(step, ok) == step,
        step is SendHello || step is SendRegister || step is SendCaps ==> after_receive(step, reply)
            == step,
        step is Done || step is Failed ==> after_send(step, ok) == step && after_receive(step, reply)
            == step,
{
}

/// The modifiers of a fourcc are those of its pairs, all of them and in the
/// order in which they were asked for. Returned are the places of these pairs.
pub proof fn law_modifiers_keep_their_order(pairs: Seq<(u32, u64)>, fourcc: u32) -> (places: Seq<int>)
    ensures
        places.len() == modifiers_of(pairs, fourcc).len(),
        forall|i: int|
            0 <= i < places.len() ==> 0 <= #[trigger] places[i] < pairs.len() && pairs[places[i]]
                == (fourcc, modifiers_of(pairs, fourcc)[i]),
        forall|i: int, j: int|
            0 <= i < j < places.len() ==> #[trigger] places[i] < #[trigger] places[j],
        forall|k: int|
            0 <= k < pairs.len() && (#[trigger] pairs[k]).0 == fourcc ==> places.contains(k),
    decreases pairs.len(),
{
    if pairs.len() == 0 {
        Seq::empty()
    } else {
        let rest = pairs.drop_last();
        let last = pairs.len() - 1;
        let before = law_modifiers_keep_their_order(rest, fourcc);
        let places = if pairs[last].0 == fourcc {
            before.push(last)
        } else {
            before
        };
        assert forall|i: int| 0 <= i < places.len() implies 0 <= #[trigger] places[i] < pairs.len()
            && pairs[places[i]] == (fourcc, modifiers_of(pairs, fourcc)[i]) by {
            if i < before.len() {
                assert(0 <= before[i] < rest.len());
                assert(rest[before[i]] == pairs[before[i]]);
            }
        }
        assert forall|k: int| 0 <= k < pairs.len() && (#[trigger] pairs[k]).0
            == fourcc implies places.contains(k) by {
            if k < last {
                assert(rest[k] == pairs[k]);
                assert(places[before.index_of(k)] == k);
            } else {
                assert(places[before.len() as int] == k);
            }
        }
        places
    }
}

/// Every fourcc that was asked for is sent, once, and no other; every modifier
/// goes with the same usage and a single plane.
pub proof fn law_lists_go_together(caps: ConsumerCaps, pairs: Seq<(u32, u64)>, usage: u32)
    requires
        sends_pairs(caps, pairs, usage),
    ensures
        forall|f: u32| #[trigger]
            caps.fourccs@.contains(f) <==> exists|k: int|
                0 <= k < pairs.len() && (#[trigger] pairs[k]).0 == f,
        forall|i: int, j: int|
            0 <= i < j < caps.fourccs@.len() ==> #[trigger] caps.fourccs@[i]
                < #[trigger] caps.fourccs@[j],
        forall|i: int|
            0 <= i < pairs.len() ==> #[trigger] caps.usages@[i] == usage && caps.plane_counts@[i]
                == 1,
        pairs.len() <= u32::MAX ==> forall|i: int|
            0 <= i < caps.fourccs@.len() ==> #[trigger] caps.mod_counts@[i] > 0,
{
    law_as_many_modifiers_as_pairs(caps, pairs, usage);
    assert forall|f: u32| #[trigger] caps.fourccs@.contains(f) <==> exists|k: int|
        0 <= k < pairs.len() && (#[trigger] pairs[k]).0 == f by {
        if caps.fourccs@.contains(f) {
            let i = caps.fourccs@.index_of(f);
            assert(has_fourcc(pairs, caps.fourccs@[i]));
        }
    }
    if pairs.len() <= u32::MAX {
        assert forall|i: int| 0 <= i < caps.fourccs@.len() implies #[trigger] caps.mod_counts@[i]
            > 0 by {
            let f = caps.fourccs@[i];
            assert(has_fourcc(pairs, f));
            let k = choose|k: int| 0 <= k < pairs.len() && (#[trigger] pairs[k]).0 == f;
            let places = law_modifiers_keep_their_order(pairs, f);
            assert(places.contains(k));
            lemma_modifiers_of_len(pairs, f);
        }
    }
}

/// The requests repeat what the settings, the program and the device say; the
/// display is one of 1920 by 1080 at 60 Hz and takes frames of up to 8192 by
/// 8192.
pub proof fn law_requests_repeat_what_is_known(
    first: Request,
    second: Request,
    caps: ConsumerCaps,
    cli: Cli,
    info: ProtocolInfo,
    ctx: VkContext,
    words: NegotiateWords,
    i: u32,
)
    requires
        introduces(first, cli, info),
        registers(second, cli, ctx),
        tells_device(caps, ctx, words),
        i < 32,
    ensures
        first is Hello && second is RegisterDisplay,
        first->client_name@ == cli.name@ && second->name@ == cli.name@,
        first->protocol@ == info.protocol@ && first->client_version@ == info.client_version@,
        first->client_protocol_version == info.protocol_version,
        second->instance_id@.len() == 0 && second->properties@.len() == 0,
        (second->width, second->height, second->refresh_mhz) == (1920u32, 1080u32, 60_000u32),
        second->drm_render_major == ctx.drm_render_major && caps.drm_render_major
            == ctx.drm_render_major,
        second->drm_render_minor == ctx.drm_render_minor && caps.drm_render_minor
            == ctx.drm_render_minor,
        caps.device_uuid@ == vk_consumer::uuid_words(ctx.device_uuid@),
        caps.driver_uuid@ == vk_consumer::uuid_words(ctx.driver_uuid@),
        (caps.extent_max_w, caps.extent_max_h) == (8192u32, 8192u32),
        caps.mem_hints == words.mem_hint_host_visible && caps.color_caps == words.default_color,
        vk_consumer::has_bit(caps.sync_caps, i) <==> vk_consumer::has_bit(
            words.sync_syncobj_binary,
            i,
        ) || vk_consumer::has_bit(words.sync_syncobj_timeline, i),
{
    vk_consumer::law_words_hold_both_bits(words, i);
}

} // verus!
