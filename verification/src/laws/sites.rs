//! What a site is told, and what it tells of itself.

use vstd::prelude::*;

use crate::blockmeta;
use crate::codec;
use crate::config::BlockBackend;
use crate::config::ChunkingConfig;
use crate::config::Config;
use crate::disk;
use crate::disk::DiskGuard;
use crate::drain;
use crate::facts;
use crate::facts::StoreStats;
use crate::order::KeyOrder;
use crate::replication;
use crate::rows::ObjectView;
use crate::rows::QueueRow;
use crate::seqs;
use crate::site;
use crate::site::SiteArgs;
use crate::store::StoreError;
use crate::store::StoreView;
use crate::table;
use crate::text;

verus! {

// ── paths and ports ──────────────────────────────────────────────────────────

/// A name in a directory has one slash in front of it, wherever the directory ends.
pub proof fn lemma_path(dir: Seq<char>, name: Seq<char>)
    requires
        dir.len() > 0,
        dir[dir.len() - 1] != '/',
    ensures
        site::path_in(dir, name) == dir + "/"@ + name,
        site::path_in(dir + "/"@, name) == dir + "/"@ + name,
        site::path_in(seq![], name) == name,
{
    reveal_strlit("/");
    assert((dir + "/"@).last() == '/');
    assert(Seq::<char>::empty() + name =~= name);
}

/// The port of an address is what follows its last colon.
pub proof fn lemma_port(host: Seq<char>, port: Seq<char>)
    requires
        !port.contains(':'),
    ensures
        site::port_of(host + seq![':'] + port) == port,
        site::port_of(port) == port,
    decreases port.len(),
{
    let addr = host + seq![':'] + port;
    if port.len() > 0 {
        let last = port[port.len() - 1];
        assert(port.contains(last));
        assert(!port.drop_last().contains(':')) by {
            if port.drop_last().contains(':') {
                let i = choose|i: int| 0 <= i < port.len() - 1 && port.drop_last()[i] == ':';
                assert(port[i] == ':');
            }
        }
        lemma_port(host, port.drop_last());
        assert(addr.drop_last() =~= host + seq![':'] + port.drop_last());
        assert(addr.last() == last);
        assert(port.drop_last().push(last) =~= port);
    } else {
        assert(addr.last() == ':');
        assert(port =~= Seq::<char>::empty());
    }
}

/// A block is kept under the first two bytes of its hash, in hexadecimal, and the whole of it.
pub proof fn lemma_block_path(hash: Seq<u8>)
    requires
        hash.len() >= 2,
    ensures
        ({
            let hex = codec::hex_text(hash);
            drain::shard_path(hash) == codec::hex_text(hash.take(1)) + "/"@ + codec::hex_text(
                hash.subrange(1, 2),
            ) + "/"@ + hex
        }),
{
    let hex = codec::hex_text(hash);
    let a = codec::hex_text(hash.take(1));
    let b = codec::hex_text(hash.subrange(1, 2));
    assert(hex.subrange(0, 2) =~= a) by {
        assert(hash.take(1)[0] == hash[0]);
        assert(hex[0] == a[0] && hex[1] == a[1]);
    }
    assert(hex.subrange(2, 4) =~= b) by {
        assert(hash.subrange(1, 2)[0] == hash[1]);
        assert(hex[2] == b[0] && hex[3] == b[1]);
    }
}

/// A secret that is given takes the place of the one in the configuration, and nothing else moves.
pub proof fn lemma_secret(config: Config, secret: String)
    ensures
        site::under_secret(config, None) == config,
        site::under_secret(config, Some(secret)).server.cluster_secret == secret,
        site::under_secret(config, Some(secret)).server.s3_bind_addr == config.server.s3_bind_addr,
        site::under_secret(config, Some(secret)).server.internal_bind_addr
            == config.server.internal_bind_addr,
        site::under_secret(config, Some(secret)).server.advertise_addr
            == config.server.advertise_addr,
        site::under_secret(config, Some(secret)).server.noise_private_key
            == config.server.noise_private_key,
        site::under_secret(config, Some(secret)).server.clock_offset_ms
            == config.server.clock_offset_ms,
        site::under_secret(config, Some(secret)).server.log_format == config.server.log_format,
        site::under_secret(config, Some(secret)).storage == config.storage,
        site::under_secret(config, Some(secret)).database == config.database,
{
}

/// A new site listens and is reached where it was told, keeps its data in its directory, keeps ten
/// gibibytes free, cuts blocks of ten mebibytes, and gives a deleted block five minutes.
pub proof fn lemma_new_site(
    c: Config,
    args: SiteArgs,
    secret: Seq<char>,
    private_key: Seq<char>,
)
    requires
        site::is_config_of(c, args, secret, private_key),
    ensures
        c.server.s3_bind_addr@ == args.s3_addr@,
        c.server.internal_bind_addr@ == args.internal_addr@,
        c.server.advertise_addr@ == args.advertise@,
        c.server.cluster_secret@ == secret,
        c.server.noise_private_key@ == private_key,
        c.server.clock_offset_ms == 0,
        c.storage.local_location_id@ == args.location_id@,
        c.database.db_path@ == site::path_in(args.data_dir@, "shardscape.db"@),
        c.storage.backend matches BlockBackend::Local { path } && path@ == site::path_in(
            args.data_dir@,
            "blocks"@,
        ),
        c.storage.min_free_bytes matches Some(s) && s@ == "10Gi"@,
        c.storage.max_bytes is None,
        c.storage.chunking matches ChunkingConfig::Fixed { max_block_size } && max_block_size == 10 * 1024
            * 1024,
        c.storage.gc_grace_period_seconds == 5 * 60,
        c.storage.gc_interval_seconds == 60,
{
}

/// The configuration without a file: all addresses, the two ports in a row, and the limits of a new
/// site.
pub proof fn lemma_default_site(c: Config)
    requires
        c.is_default(),
    ensures
        c.server.s3_bind_addr@ == "0.0.0.0:8014"@,
        c.server.internal_bind_addr@ == "0.0.0.0:8015"@,
        c.server.advertise_addr@ == "http://localhost:8014"@,
        c.server.noise_private_key@.len() == 0,
        c.server.clock_offset_ms == 0,
        c.storage.local_location_id@ == "default"@,
        c.database.db_path@ == "shardscape.db"@,
        c.storage.backend matches BlockBackend::Local { path } && path@ == "blocks"@,
        c.storage.min_free_bytes matches Some(s) && s@ == "10Gi"@,
        c.storage.max_bytes is None,
        c.storage.chunking matches ChunkingConfig::Fixed { max_block_size } && max_block_size == 10 * 1024
            * 1024,
        c.storage.gc_grace_period_seconds == 5 * 60,
        c.storage.gc_interval_seconds == 60,
{
}

/// `piece` stands somewhere in `whole`.
pub open spec fn within(whole: Seq<char>, piece: Seq<char>) -> bool {
    exists|a: Seq<char>, b: Seq<char>| whole == #[trigger] (a + piece + b)
}

/// The manifests tell the node its ports, its name and its address, publish the ports, and claim
/// the volume of the site.
pub proof fn lemma_manifests(name: Seq<char>, s3_port: Seq<char>, internal_port: Seq<char>)
    ensures
        ({
            let all = site::manifests_text(name, s3_port, internal_port);
            &&& within(
                all,
                name + " --s3-addr 0.0.0.0:"@ + s3_port
                    + "\n              --internal-addr 0.0.0.0:"@ + internal_port
                    + "\n              --advertise http://shardscape-"@ + name
                    + ".shardscape.svc.cluster.local:"@ + internal_port,
            )
            &&& within(
                all,
                s3_port + ", name: s3 }\n            - { containerPort: "@ + internal_port,
            )
            &&& within(
                all,
                " }\n  ports:\n    - { name: s3, port: "@ + s3_port
                    + ", targetPort: s3 }\n    - { name: internal, port: "@ + internal_port
                    + ", targetPort: internal }\n"@,
            )
            &&& within(
                all,
                "apiVersion: v1\nkind: PersistentVolumeClaim\nmetadata:\n  name: shardscape-data-"@
                    + name,
            )
        }),
{
    let n = site::namespace_text(name);
    let v = site::volume_claim_text(name);
    let d = site::deployment_text(name, s3_port, internal_port);
    let s = site::service_text(name, s3_port, internal_port);
    // The deployment.
    let front = site::DEPLOYMENT_1@ + name + site::DEPLOYMENT_2@ + name + site::DEPLOYMENT_3@ + name
        + site::DEPLOYMENT_4@;
    let t2 = name + site::DEPLOYMENT_5@;
    let t3 = t2 + s3_port;
    let t4 = t3 + site::DEPLOYMENT_6@;
    let t5 = t4 + internal_port;
    let t6 = t5 + site::DEPLOYMENT_7@;
    let t7 = t6 + name;
    let t8 = t7 + site::DEPLOYMENT_8@;
    let told = t8 + internal_port;
    lemma_regroup(front, name, site::DEPLOYMENT_5@);
    lemma_regroup(front, t2, s3_port);
    lemma_regroup(front, t3, site::DEPLOYMENT_6@);
    lemma_regroup(front, t4, internal_port);
    lemma_regroup(front, t5, site::DEPLOYMENT_7@);
    lemma_regroup(front, t6, name);
    lemma_regroup(front, t7, site::DEPLOYMENT_8@);
    lemma_regroup(front, t8, internal_port);
    let d9 = front + told + site::DEPLOYMENT_9@;
    let u2 = s3_port + site::DEPLOYMENT_10@;
    let ports = u2 + internal_port;
    lemma_regroup(d9, s3_port, site::DEPLOYMENT_10@);
    lemma_regroup(d9, u2, internal_port);
    let d11 = d9 + ports;
    assert(d == d11 + site::DEPLOYMENT_11@ + name + site::DEPLOYMENT_12@);
    lemma_ends_in(front, told);
    lemma_goes_on(front + told, site::DEPLOYMENT_9@, told);
    lemma_ends_in(d9, ports);
    lemma_goes_on(d9, ports, told);
    lemma_goes_on(d11, site::DEPLOYMENT_11@, told);
    lemma_goes_on(d11 + site::DEPLOYMENT_11@, name, told);
    lemma_goes_on(d11 + site::DEPLOYMENT_11@ + name, site::DEPLOYMENT_12@, told);
    lemma_goes_on(d11, site::DEPLOYMENT_11@, ports);
    lemma_goes_on(d11 + site::DEPLOYMENT_11@, name, ports);
    lemma_goes_on(d11 + site::DEPLOYMENT_11@ + name, site::DEPLOYMENT_12@, ports);
    lemma_goes_behind(n + v, d, told);
    lemma_goes_behind(n + v, d, ports);
    lemma_goes_on(n + v + d, s, told);
    lemma_goes_on(n + v + d, s, ports);
    // The service.
    let head = site::SERVICE_1@ + name + site::SERVICE_2@ + name;
    let p2 = site::SERVICE_3@ + s3_port;
    let p3 = p2 + site::SERVICE_4@;
    let p4 = p3 + internal_port;
    let published = p4 + site::SERVICE_5@;
    lemma_regroup(head, site::SERVICE_3@, s3_port);
    lemma_regroup(head, p2, site::SERVICE_4@);
    lemma_regroup(head, p3, internal_port);
    lemma_regroup(head, p4, site::SERVICE_5@);
    lemma_ends_in(head, published);
    lemma_goes_behind(n + v + d, s, published);
    // The volume.
    let claim = site::VOLUME_CLAIM_1@ + name;
    lemma_ends_in(seq![], claim);
    assert(Seq::<char>::empty() + claim =~= claim);
    lemma_goes_on(claim, site::VOLUME_CLAIM_2@, claim);
    lemma_goes_behind(n, v, claim);
    lemma_goes_on(n + v, d, claim);
    lemma_goes_on(n + v + d, s, claim);
}

proof fn lemma_regroup(a: Seq<char>, b: Seq<char>, c: Seq<char>)
    ensures
        a + (b + c) == a + b + c,
{
    assert(a + (b + c) =~= a + b + c);
}

proof fn lemma_ends_in(a: Seq<char>, piece: Seq<char>)
    ensures
        within(a + piece, piece),
{
    assert(a + piece =~= a + piece + Seq::<char>::empty());
}

proof fn lemma_goes_on(whole: Seq<char>, more: Seq<char>, piece: Seq<char>)
    requires
        within(whole, piece),
    ensures
        within(whole + more, piece),
{
    let (a, b) = choose|a: Seq<char>, b: Seq<char>| whole == #[trigger] (a + piece + b);
    lemma_regroup(a + piece, b, more);
    assert(whole + more == a + piece + (b + more));
}

proof fn lemma_goes_behind(before: Seq<char>, whole: Seq<char>, piece: Seq<char>)
    requires
        within(whole, piece),
    ensures
        within(before + whole, piece),
{
    let (a, b) = choose|a: Seq<char>, b: Seq<char>| whole == #[trigger] (a + piece + b);
    lemma_regroup(before, a + piece, b);
    lemma_regroup(before, a, piece);
    assert(before + whole == (before + a) + piece + b);
}

// ── the status ───────────────────────────────────────────────────────────────

/// A text is filled up with blanks to its width, and never cut.
pub proof fn lemma_padded(s: Seq<char>, width: nat)
    ensures
        ({
            let p = site::padded(s, width);
            &&& p.len() == if s.len() < width {
                width
            } else {
                s.len()
            }
            &&& p.take(s.len() as int) == s
            &&& forall|i: int| s.len() <= i < p.len() ==> #[trigger] p[i] == ' '
        }),
    decreases width - s.len(),
{
    let p = site::padded(s, width);
    if s.len() < width {
        lemma_padded(s.push(' '), width);
        assert(p.take(s.len() as int + 1) == s.push(' '));
        assert(p[s.len() as int] == p.take(s.len() as int + 1)[s.len() as int]);
        assert(p.take(s.len() as int) =~= p.take(s.len() as int + 1).take(s.len() as int));
        assert(s.push(' ').take(s.len() as int) =~= s);
    } else {
        assert(p.take(s.len() as int) =~= s);
    }
}

/// Every peer has a line of its own, with its name, its address and how far its log has been read.
pub proof fn lemma_peer_lines(
    s: StoreView,
    peers: Seq<(Seq<char>, Seq<char>)>,
    id: Seq<char>,
    url: Seq<char>,
)
    ensures
        site::peer_lines(s, seq![]).len() == 0,
        site::peer_lines(s, peers.push((id, url))) == site::peer_lines(s, peers) + ("    - "@
            + site::padded(id, 14) + " "@ + url + "  (synced through fact #"@ + text::signed_text(
            if s.cursors.dom().contains(id) {
                s.cursors[id] as int
            } else {
                0
            },
        ) + ")\n"@),
{
    assert(peers.push((id, url)).drop_last() =~= peers);
}

/// The line of the disk: what is free and what the guard says, where it has a reserve; else what
/// the guard says.
pub proof fn lemma_disk_line(g: DiskGuard)
    ensures
        g.min_free_bytes > 0 ==> site::disk_line(g) == "  disk free:          "@ + disk::bytes_text(
            g.free as nat,
        ) + " (guard: "@ + g.state_text() + ")\n"@,
        g.min_free_bytes == 0 ==> site::disk_line(g) == "  disk guard:         "@ + g.state_text()
            + "\n"@,
{
}

/// The lines of the store: each count behind its own label.
pub proof fn lemma_store_lines(config: Config, t: StoreStats)
    requires
        t.local_block_bytes >= 0,
    ensures
        site::store_lines(config, t) == "Shardscape site '"@ + config.storage.local_location_id@
            + "'\n  S3 endpoint:        http://"@ + config.server.s3_bind_addr@ + "\n"@ + (
        "  live objects:       "@ + text::decimal_text(t.live_objects as nat) + "\n"@)
            + "  local blocks:       "@ + text::decimal_text(t.local_blocks as nat) + " ("@
            + disk::bytes_text(t.local_block_bytes as nat) + ")\n"@ + ("  blocks to pull:     "@
            + text::decimal_text(t.pending_pulls as nat) + "\n"@) + ("  pending GC:         "@
            + text::decimal_text(t.pending_deletions as nat) + "\n"@) + ("  fact-log length:    "@
            + text::decimal_text(t.fact_count as nat) + "\n"@),
{
}

/// What is counted as a live object is an object that is not deleted, and what is counted as a
/// pull is an entry of the queue of this site.
pub proof fn lemma_counted(
    s: StoreView,
    key: (Seq<char>, Seq<char>),
    target: Seq<char>,
    hash: Seq<u8>,
)
    requires
        table::enumerates(table::ordered(s.objects), s.objects),
        table::enumerates(table::ordered(s.queue), s.queue),
    ensures
        ({
            let live = table::ordered(s.objects).filter(facts::alive());
            let pulls = table::ordered(s.queue).filter(replication::queued_for(s.site));
            &&& (exists|i: int| 0 <= i < live.len() && (#[trigger] live[i]).0 == key) == (
            s.objects.dom().contains(key) && !s.objects[key].deleted)
            &&& forall|i: int, j: int|
                0 <= i < j < live.len() ==> (#[trigger] live[i]).0 != (#[trigger] live[j]).0
            &&& (exists|i: int| 0 <= i < pulls.len() && (#[trigger] pulls[i]).0 == (target, hash))
                == (s.queue.dom().contains((target, hash)) && target == s.site)
            &&& forall|i: int, j: int|
                0 <= i < j < pulls.len() ==> (#[trigger] pulls[i]).0 != (#[trigger] pulls[j]).0
        }),
{
    let a = table::ordered(s.objects);
    let b = table::ordered(s.queue);
    let live = a.filter(facts::alive());
    let pulls = b.filter(replication::queued_for(s.site));
    table::lemma_filter_ascending(a, facts::alive());
    table::lemma_filter_ascending(b, replication::queued_for(s.site));
    if exists|i: int| 0 <= i < live.len() && (#[trigger] live[i]).0 == key {
        let i = choose|i: int| 0 <= i < live.len() && (#[trigger] live[i]).0 == key;
        assert(live.contains(live[i]));
        seqs::lemma_filter_members(a, facts::alive(), live[i]);
        let x = choose|x: int| 0 <= x < a.len() && a[x] == live[i];
        assert(s.objects.dom().contains(a[x].0) && s.objects[a[x].0] == a[x].1);
    }
    if s.objects.dom().contains(key) && !s.objects[key].deleted {
        assert(a.contains((key, s.objects[key])));
        seqs::lemma_filter_members(a, facts::alive(), (key, s.objects[key]));
        let i = choose|i: int| 0 <= i < live.len() && live[i] == (key, s.objects[key]);
        assert(live[i].0 == key);
    }
    let k = (target, hash);
    if exists|i: int| 0 <= i < pulls.len() && (#[trigger] pulls[i]).0 == k {
        let i = choose|i: int| 0 <= i < pulls.len() && (#[trigger] pulls[i]).0 == k;
        assert(pulls.contains(pulls[i]));
        seqs::lemma_filter_members(b, replication::queued_for(s.site), pulls[i]);
        let x = choose|x: int| 0 <= x < b.len() && b[x] == pulls[i];
        assert(s.queue.dom().contains(b[x].0) && s.queue[b[x].0] == b[x].1);
    }
    if s.queue.dom().contains(k) && target == s.site {
        assert(b.contains((k, s.queue[k])));
        seqs::lemma_filter_members(b, replication::queued_for(s.site), (k, s.queue[k]));
        let i = choose|i: int| 0 <= i < pulls.len() && pulls[i] == (k, s.queue[k]);
        assert(pulls[i].0 == k);
    }
    assert forall|i: int, j: int| 0 <= i < j < live.len() implies (#[trigger] live[i]).0 != (
    #[trigger] live[j]).0 by {
        <(Seq<char>, Seq<char>) as KeyOrder>::before_irreflexive(live[i].0);
        assert(live[i].0.before(live[j].0));
    }
    assert forall|i: int, j: int| 0 <= i < j < pulls.len() implies (#[trigger] pulls[i]).0 != (
    #[trigger] pulls[j]).0 by {
        <(Seq<char>, Seq<u8>) as KeyOrder>::before_irreflexive(pulls[i].0);
        assert(pulls[i].0.before(pulls[j].0));
    }
}

/// The counts are those of the objects, of the blocks here and their bytes, of what is to be
/// deleted and pulled, and of the log; there are none where the bytes are more than can be told.
pub proof fn lemma_counts(s: StoreView, r: Result<StoreStats, StoreError>)
    requires
        facts::counted(s, r),
    ensures
        ({
            let held = blockmeta::held_at(s.locations, s.site);
            let total = blockmeta::total_size(s.blocks, held);
            &&& total > i64::MAX ==> r == Err::<StoreStats, StoreError>(StoreError::SumOverflow)
            &&& 0 <= total <= i64::MAX ==> (r matches Ok(t) && {
                &&& t.live_objects == table::ordered(s.objects).filter(
                    |e: ((Seq<char>, Seq<char>), ObjectView)| !e.1.deleted,
                ).len()
                &&& t.local_blocks == held.len()
                &&& t.local_block_bytes == total
                &&& t.pending_deletions == s.pending.dom().len()
                &&& t.pending_pulls == table::ordered(s.queue).filter(
                    |e: ((Seq<char>, Seq<u8>), QueueRow)| e.0.0 == s.site,
                ).len()
                &&& t.fact_count == s.log.len()
            })
        }),
{
    crate::laws::pulls::lemma_same_filter(
        table::ordered(s.objects),
        facts::alive(),
        |e: ((Seq<char>, Seq<char>), ObjectView)| !e.1.deleted,
    );
    crate::laws::pulls::lemma_same_filter(
        table::ordered(s.queue),
        replication::queued_for(s.site),
        |e: ((Seq<char>, Seq<u8>), QueueRow)| e.0.0 == s.site,
    );
}

} // verus!
