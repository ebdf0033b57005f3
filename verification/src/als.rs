//! Reading an Ableton Live Set (`.als`): a gzipped XML document from which the
//! project index takes the tempo, key, time signature, the number of active
//! tracks, the plugins and samples it uses, and the Live version that saved it.

use std::io::Read;
use vstd::prelude::*;
use crate::library::{list_has, opt_view, strings_view};
use crate::text::{
    eq_ignore_ascii_case, eq_ignore_ascii_case_spec, extension, extension_spec, file_name, file_name_spec,
    parse_i64, parse_i64_spec, str_is, trim, trim_spec,
};
use crate::xml::{
    XmlNode, XmlNodeView, chain, chain_spec, child, child_of, child_spec, elem_named,
    find_first, find_first_spec, get_val, has_element_children, has_element_children_spec,
    lemma_child_in_range, node_attr, nodes_view, opt_int, parse_xml, strs_view, tree_ok,
    value_of, xml_nodes, attribute,
};

verus! {

/// What `flate2::read::GzDecoder` followed by `Read::read_to_string` yields
/// for `data`: the decompressed text, or `None` when the data is not gzip or
/// the text is not UTF-8.
pub uninterp spec fn gunzip_text(data: Seq<u8>) -> Option<Seq<char>>;

/// Decompress gzip data into a string with `flate2::read::GzDecoder` and
/// `Read::read_to_string`. Trusted: the result is `gunzip_text(data)`.
#[verifier::external_body]
fn gunzip_to_string(data: &[u8]) -> (r: Option<String>)
    ensures
        opt_view(r) == gunzip_text(data@),
{
    let mut text = String::new();
    match flate2::read::GzDecoder::new(data).read_to_string(&mut text) {
        Ok(_) => Some(text),
        Err(_) => None,
    }
}

/// The metadata of one Live Set. The tempo is kept as the text of its
/// `Value` attribute (the reader of the index turns it into a number).
pub struct AlsMeta {
    pub bpm_text: Option<String>,
    pub key_root: Option<i64>,
    pub key_scale: Option<String>,
    pub key_confirmed: bool,
    pub time_sig_num: i64,
    pub time_sig_den: i64,
    pub active_track_count: i64,
    pub plugins: Vec<String>,
    pub samples: Vec<String>,
    pub ableton_version: Option<String>,
    pub file_mod_date: i64,
    pub created_date: i64,
}

pub struct AlsMetaView {
    pub bpm_text: Option<Seq<char>>,
    pub key_root: Option<i64>,
    pub key_scale: Option<Seq<char>>,
    pub key_confirmed: bool,
    pub time_sig_num: i64,
    pub time_sig_den: i64,
    pub active_track_count: int,
    pub plugins: Seq<Seq<char>>,
    pub samples: Seq<Seq<char>>,
    pub ableton_version: Option<Seq<char>>,
    pub file_mod_date: i64,
    pub created_date: i64,
}

impl View for AlsMeta {
    type V = AlsMetaView;

    open spec fn view(&self) -> AlsMetaView {
        AlsMetaView {
            bpm_text: opt_view(self.bpm_text),
            key_root: self.key_root,
            key_scale: opt_view(self.key_scale),
            key_confirmed: self.key_confirmed,
            time_sig_num: self.time_sig_num,
            time_sig_den: self.time_sig_den,
            active_track_count: self.active_track_count as int,
            plugins: strings_view(self.plugins@),
            samples: strings_view(self.samples@),
            ableton_version: opt_view(self.ableton_version),
            file_mod_date: self.file_mod_date,
            created_date: self.created_date,
        }
    }
}

pub open spec fn meta_opt_view(o: Option<AlsMeta>) -> Option<AlsMetaView> {
    match o {
        Some(m) => Some(m@),
        None => None,
    }
}

// ── the model of a Live Set ─────────────────────────────────────────────────

/// The first element among `kids[k..]`.
pub open spec fn first_element_from(ns: Seq<XmlNodeView>, kids: Seq<usize>, k: int) -> Option<int>
    decreases kids.len() - k,
{
    if k < 0 || k >= kids.len() {
        None
    } else if kids[k] < ns.len() && ns[kids[k] as int].is_element {
        Some(kids[k] as int)
    } else {
        first_element_from(ns, kids, k + 1)
    }
}

/// The document's root element: the first element child of the root node.
pub open spec fn root_element_spec(ns: Seq<XmlNodeView>) -> Option<int> {
    if ns.len() > 0 {
        first_element_from(ns, ns[0].children, 0)
    } else {
        None
    }
}

/// The first child element named `tag` of the node `o` names, if any.
pub open spec fn child_in(ns: Seq<XmlNodeView>, o: Option<int>, tag: Seq<char>) -> Option<int> {
    match o {
        Some(i) => child_spec(ns, i, tag),
        None => None,
    }
}

pub open spec fn opt_parse_i64(o: Option<Seq<char>>) -> Option<i64> {
    match o {
        Some(v) => parse_i64_spec(v),
        None => None,
    }
}

/// The tempo element: the main track's mixer tempo, else a `Tempo` child of
/// the set, else the first `Tempo` anywhere below it.
pub open spec fn tempo_node_spec(ns: Seq<XmlNodeView>, ls: int) -> Option<int> {
    match chain_spec(ns, ls, seq!["MainTrack"@, "DeviceChain"@, "Mixer"@, "Tempo"@]) {
        Some(t) => Some(t),
        None => match child_spec(ns, ls, "Tempo"@) {
            Some(t) => Some(t),
            None => find_first_spec(ns, ls, "Tempo"@),
        },
    }
}

/// The tempo's `Manual` value, as text.
pub open spec fn bpm_text_spec(ns: Seq<XmlNodeView>, ls: int) -> Option<Seq<char>> {
    value_of(ns, child_in(ns, tempo_node_spec(ns, ls), "Manual"@))
}

/// The key counts only when the set has scale information and `InKey` is
/// `"true"`.
pub open spec fn key_confirmed_spec(ns: Seq<XmlNodeView>, ls: int) -> bool {
    &&& child_spec(ns, ls, "ScaleInformation"@) is Some
    &&& value_of(ns, child_spec(ns, ls, "InKey"@)) == Some("true"@)
}

pub open spec fn key_root_spec(ns: Seq<XmlNodeView>, ls: int) -> Option<i64> {
    if key_confirmed_spec(ns, ls) {
        opt_parse_i64(value_of(ns, child_in(ns, child_spec(ns, ls, "ScaleInformation"@), "Root"@)))
    } else {
        None
    }
}

/// The scale name as written, when the key counts and the name is not empty.
pub open spec fn key_scale_spec(ns: Seq<XmlNodeView>, ls: int) -> Option<Seq<char>> {
    if key_confirmed_spec(ns, ls) {
        match value_of(ns, child_in(ns, child_spec(ns, ls, "ScaleInformation"@), "Name"@)) {
            Some(v) => if v.len() > 0 {
                Some(v)
            } else {
                None
            },
            None => None,
        }
    } else {
        None
    }
}

/// One part of the time signature: the parsed value of the element `tag`
/// below the time signature element, else 4.
pub open spec fn sig_part(ns: Seq<XmlNodeView>, ls: int, tag: Seq<char>) -> i64 {
    match opt_parse_i64(value_of(ns, child_in(ns, find_first_spec(ns, ls, "RemoteableTimeSignature"@), tag))) {
        Some(n) => n,
        None => 4,
    }
}

/// Whether the element `o` names exists and has a child element.
pub open spec fn holds_elements(ns: Seq<XmlNodeView>, o: Option<int>) -> bool {
    match o {
        Some(e) => has_element_children_spec(ns, e),
        None => false,
    }
}

/// Whether track element `t` counts as active: a MIDI or audio track with
/// arrangement events, or a group or return track with devices.
pub open spec fn track_counts(ns: Seq<XmlNodeView>, t: int) -> bool {
    if elem_named(ns, t, "MidiTrack"@) {
        holds_elements(
            ns,
            chain_spec(
                ns,
                t,
                seq!["DeviceChain"@, "MainSequencer"@, "ClipTimeable"@, "ArrangerAutomation"@, "Events"@],
            ),
        )
    } else if elem_named(ns, t, "AudioTrack"@) {
        holds_elements(
            ns,
            chain_spec(ns, t, seq!["DeviceChain"@, "MainSequencer"@, "Sample"@, "ArrangerAutomation"@, "Events"@]),
        )
    } else if elem_named(ns, t, "GroupTrack"@) || elem_named(ns, t, "ReturnTrack"@) {
        holds_elements(ns, chain_spec(ns, t, seq!["DeviceChain"@, "Devices"@]))
    } else {
        false
    }
}

/// How many of `kids[..k]` count as active tracks.
pub open spec fn count_active(ns: Seq<XmlNodeView>, kids: Seq<usize>, k: int) -> int
    decreases k,
{
    if k <= 0 {
        0
    } else {
        count_active(ns, kids, k - 1) + if track_counts(ns, kids[k - 1] as int) {
            1int
        } else {
            0int
        }
    }
}

/// The main track counts as one; each active track under `Tracks` adds one.
pub open spec fn active_track_count_spec(ns: Seq<XmlNodeView>, ls: int) -> int {
    1 + match child_spec(ns, ls, "Tracks"@) {
        Some(tr) => count_active(ns, ns[tr].children, ns[tr].children.len() as int),
        None => 0,
    }
}

/// A value, as a list of one name when it is present and not empty.
pub open spec fn nonempty_value(o: Option<Seq<char>>) -> Seq<Seq<char>> {
    match o {
        Some(v) => if v.len() > 0 {
            seq![v]
        } else {
            Seq::empty()
        },
        None => Seq::empty(),
    }
}

/// The plugin names a `PluginDesc` element gives: VST, VST3 and AU, in that
/// order, where present and not empty.
pub open spec fn plugin_names_at(ns: Seq<XmlNodeView>, d: int) -> Seq<Seq<char>> {
    nonempty_value(value_of(ns, chain_spec(ns, d, seq!["VstPluginInfo"@, "PlugName"@]))) + nonempty_value(
        value_of(ns, chain_spec(ns, d, seq!["Vst3PluginInfo"@, "Name"@])),
    ) + nonempty_value(value_of(ns, chain_spec(ns, d, seq!["AuPluginInfo"@, "Name"@])))
}

/// The plugin names of the `PluginDesc` elements among the first `n` nodes,
/// in document order, repeats included.
pub open spec fn plugin_candidates(ns: Seq<XmlNodeView>, n: int) -> Seq<Seq<char>>
    decreases n,
{
    if n <= 0 {
        Seq::empty()
    } else {
        plugin_candidates(ns, n - 1) + if elem_named(ns, n - 1, "PluginDesc"@) {
            plugin_names_at(ns, n - 1)
        } else {
            Seq::empty()
        }
    }
}

/// A sample's name as listed: the last path component of the referenced
/// name, or the name itself when it has none.
pub open spec fn sample_base(name: Seq<char>) -> Seq<char> {
    match file_name_spec(name) {
        Some(b) => b,
        None => name,
    }
}

/// A referenced sample name, as a list of one base name when it is present
/// and not blank.
pub open spec fn sample_value(o: Option<Seq<char>>) -> Seq<Seq<char>> {
    match o {
        Some(v) => if trim_spec(v).len() > 0 {
            seq![sample_base(v)]
        } else {
            Seq::empty()
        },
        None => Seq::empty(),
    }
}

/// The sample a `SampleRef` element names, when its name is not blank.
pub open spec fn sample_at(ns: Seq<XmlNodeView>, r: int) -> Seq<Seq<char>> {
    sample_value(value_of(ns, chain_spec(ns, r, seq!["FileRef"@, "Name"@])))
}

/// The sample names of the `SampleRef` elements among the first `n` nodes,
/// in document order, repeats included.
pub open spec fn sample_candidates(ns: Seq<XmlNodeView>, n: int) -> Seq<Seq<char>>
    decreases n,
{
    if n <= 0 {
        Seq::empty()
    } else {
        sample_candidates(ns, n - 1) + if elem_named(ns, n - 1, "SampleRef"@) {
            sample_at(ns, n - 1)
        } else {
            Seq::empty()
        }
    }
}

/// The names in order of first appearance, each once.
pub open spec fn dedup(s: Seq<Seq<char>>) -> Seq<Seq<char>>
    decreases s.len(),
{
    if s.len() == 0 {
        s
    } else {
        let p = dedup(s.drop_last());
        if p.contains(s.last()) {
            p
        } else {
            p.push(s.last())
        }
    }
}

/// The metadata of a Live Set document: `None` when it has no root element
/// or the root has no `LiveSet` child.
pub open spec fn als_meta_spec(ns: Seq<XmlNodeView>, file_mod_date: i64, created_date: i64) -> Option<
    AlsMetaView,
> {
    match root_element_spec(ns) {
        None => None,
        Some(root) => match child_spec(ns, root, "LiveSet"@) {
            None => None,
            Some(ls) => Some(
                AlsMetaView {
                    bpm_text: bpm_text_spec(ns, ls),
                    key_root: key_root_spec(ns, ls),
                    key_scale: key_scale_spec(ns, ls),
                    key_confirmed: key_confirmed_spec(ns, ls),
                    time_sig_num: sig_part(ns, ls, "Numerator"@),
                    time_sig_den: sig_part(ns, ls, "Denominator"@),
                    active_track_count: active_track_count_spec(ns, ls),
                    plugins: dedup(plugin_candidates(ns, ns.len() as int)),
                    samples: dedup(sample_candidates(ns, ns.len() as int)),
                    ableton_version: node_attr(ns, root, "Creator"@),
                    file_mod_date,
                    created_date,
                },
            ),
        },
    }
}

/// The project's creation date: its folder's creation time when known and
/// after the epoch, else the file's modification time.
pub open spec fn created_date_spec(folder_created: Option<i64>, file_mod_date: i64) -> i64 {
    match folder_created {
        Some(s) => if s > 0 {
            s
        } else {
            file_mod_date
        },
        None => file_mod_date,
    }
}

// ── reading the model off the tree ──────────────────────────────────────────

fn root_element(nodes: &Vec<XmlNode>) -> (r: Option<usize>)
    requires
        tree_ok(nodes_view(nodes@)),
    ensures
        r matches Some(c) ==> c < nodes@.len(),
        opt_int(r) == root_element_spec(nodes_view(nodes@)),
{
    let ghost ns = nodes_view(nodes@);
    if nodes.len() == 0 {
        return None;
    }
    let kids = &nodes[0].children;
    assert(ns[0].children == kids@);
    let mut k: usize = 0;
    while k < kids.len()
        invariant
            k <= kids@.len(),
            ns == nodes_view(nodes@),
            tree_ok(ns),
            ns.len() > 0,
            ns[0].children == kids@,
            root_element_spec(ns) == first_element_from(ns, kids@, k as int),
        decreases kids@.len() - k,
    {
        let c = kids[k];
        assert(c < ns.len());
        assert(ns[c as int] == nodes@[c as int]@);
        if nodes[c].is_element {
            return Some(c);
        }
        k = k + 1;
    }
    None
}

/// The tempo element of the set `ls`.
fn tempo_node(nodes: &Vec<XmlNode>, ls: usize) -> (r: Option<usize>)
    requires
        tree_ok(nodes_view(nodes@)),
        ls < nodes@.len(),
    ensures
        r matches Some(c) ==> c < nodes@.len(),
        opt_int(r) == tempo_node_spec(nodes_view(nodes@), ls as int),
{
    let path = vec!["MainTrack", "DeviceChain", "Mixer", "Tempo"];
    assert(strs_view(path@) =~= seq!["MainTrack"@, "DeviceChain"@, "Mixer"@, "Tempo"@]);
    if let Some(t) = chain(nodes, ls, &path) {
        return Some(t);
    }
    if let Some(t) = child(nodes, ls, "Tempo") {
        proof {
            lemma_child_in_range(nodes_view(nodes@), ls as int, "Tempo"@);
        }
        return Some(t);
    }
    find_first(nodes, ls, "Tempo")
}

fn clone_opt(o: Option<&String>) -> (r: Option<String>)
    ensures
        opt_view(r) == match o {
            Some(s) => Some(s@),
            None => None::<Seq<char>>,
        },
{
    match o {
        Some(s) => Some(s.clone()),
        None => None,
    }
}

fn parse_opt(o: Option<&String>) -> (r: Option<i64>)
    ensures
        r == opt_parse_i64(match o {
            Some(s) => Some(s@),
            None => None::<Seq<char>>,
        }),
{
    match o {
        Some(s) => parse_i64(s.as_str()),
        None => None,
    }
}

/// One part of the time signature (`Numerator` or `Denominator`), 4 when
/// absent or not a number.
fn time_sig_part(nodes: &Vec<XmlNode>, ls: usize, tag: &str) -> (r: i64)
    requires
        tree_ok(nodes_view(nodes@)),
        ls < nodes@.len(),
    ensures
        r == sig_part(nodes_view(nodes@), ls as int, tag@),
{
    let rts = find_first(nodes, ls, "RemoteableTimeSignature");
    let c = child_of(nodes, rts, tag);
    match parse_opt(get_val(nodes, c)) {
        Some(n) => n,
        None => 4,
    }
}

/// The key of the set `ls`: (root, scale name, confirmed).
fn read_key(nodes: &Vec<XmlNode>, ls: usize) -> (r: (Option<i64>, Option<String>, bool))
    requires
        tree_ok(nodes_view(nodes@)),
        ls < nodes@.len(),
    ensures
        r.0 == key_root_spec(nodes_view(nodes@), ls as int),
        opt_view(r.1) == key_scale_spec(nodes_view(nodes@), ls as int),
        r.2 == key_confirmed_spec(nodes_view(nodes@), ls as int),
{
    let ghost ns = nodes_view(nodes@);
    let si = child(nodes, ls, "ScaleInformation");
    proof {
        lemma_child_in_range(ns, ls as int, "ScaleInformation"@);
    }
    if si.is_none() {
        return (None, None, false);
    }
    let in_key = child(nodes, ls, "InKey");
    proof {
        lemma_child_in_range(ns, ls as int, "InKey"@);
    }
    let confirmed = match get_val(nodes, in_key) {
        Some(v) => {
            proof {
                reveal_strlit("true");
            }
            crate::text::str_is(v.as_str(), "true")
        },
        None => false,
    };
    if !confirmed {
        return (None, None, false);
    }
    let root = parse_opt(get_val(nodes, child_of(nodes, si, "Root")));
    let name = get_val(nodes, child_of(nodes, si, "Name"));
    let scale = match name {
        Some(v) => if !v.as_str().is_empty() {
            Some(v.clone())
        } else {
            None
        },
        None => None,
    };
    (root, scale, true)
}

/// Whether the element `o` names exists and has a child element.
fn holds_elements_exec(nodes: &Vec<XmlNode>, o: Option<usize>) -> (r: bool)
    requires
        tree_ok(nodes_view(nodes@)),
        o matches Some(e) ==> e < nodes@.len(),
    ensures
        r == holds_elements(nodes_view(nodes@), opt_int(o)),
{
    match o {
        Some(e) => has_element_children(nodes, e),
        None => false,
    }
}

/// Whether track element `t` counts as active.
fn track_is_active(nodes: &Vec<XmlNode>, t: usize) -> (r: bool)
    requires
        tree_ok(nodes_view(nodes@)),
        t < nodes@.len(),
    ensures
        r == track_counts(nodes_view(nodes@), t as int),
{
    let ghost ns = nodes_view(nodes@);
    let n = &nodes[t];
    assert(ns[t as int] == n@);
    if !n.is_element {
        return false;
    }
    let name = n.name.as_str();
    proof {
        reveal_strlit("MidiTrack");
        reveal_strlit("AudioTrack");
        reveal_strlit("GroupTrack");
        reveal_strlit("ReturnTrack");
    }
    if crate::text::str_is(name, "MidiTrack") {
        let path = vec!["DeviceChain", "MainSequencer", "ClipTimeable", "ArrangerAutomation", "Events"];
        assert(strs_view(path@) =~= seq![
            "DeviceChain"@,
            "MainSequencer"@,
            "ClipTimeable"@,
            "ArrangerAutomation"@,
            "Events"@,
        ]);
        holds_elements_exec(nodes, chain(nodes, t, &path))
    } else if crate::text::str_is(name, "AudioTrack") {
        let path = vec!["DeviceChain", "MainSequencer", "Sample", "ArrangerAutomation", "Events"];
        assert(strs_view(path@) =~= seq![
            "DeviceChain"@,
            "MainSequencer"@,
            "Sample"@,
            "ArrangerAutomation"@,
            "Events"@,
        ]);
        holds_elements_exec(nodes, chain(nodes, t, &path))
    } else if crate::text::str_is(name, "GroupTrack") || crate::text::str_is(name, "ReturnTrack") {
        let path = vec!["DeviceChain", "Devices"];
        assert(strs_view(path@) =~= seq!["DeviceChain"@, "Devices"@]);
        holds_elements_exec(nodes, chain(nodes, t, &path))
    } else {
        false
    }
}

/// The main track plus each active track of the set `ls`.
fn active_track_count(nodes: &Vec<XmlNode>, ls: usize) -> (r: i64)
    requires
        tree_ok(nodes_view(nodes@)),
        ls < nodes@.len(),
    ensures
        r == active_track_count_spec(nodes_view(nodes@), ls as int),
{
    let ghost ns = nodes_view(nodes@);
    let tracks = child(nodes, ls, "Tracks");
    proof {
        lemma_child_in_range(ns, ls as int, "Tracks"@);
    }
    match tracks {
        None => 1,
        Some(tr) => {
            let kids = &nodes[tr].children;
            assert(ns[tr as int].children == kids@);
            let mut count: i64 = 1;
            let mut k: usize = 0;
            while k < kids.len()
                invariant
                    k <= kids@.len(),
                    ns == nodes_view(nodes@),
                    tree_ok(ns),
                    tr < ns.len(),
                    ns[tr as int].children == kids@,
                    count == 1 + count_active(ns, kids@, k as int),
                    1 <= count <= k + 1,
                decreases kids@.len() - k,
            {
                let c = kids[k];
                proof {
                    crate::xml::lemma_child_index(ns, tr as int, k as int);
                }
                if track_is_active(nodes, c) {
                    count = count + 1;
                }
                k = k + 1;
            }
            count
        },
    }
}

pub open spec fn ref_view(o: Option<&String>) -> Option<Seq<char>> {
    match o {
        Some(s) => Some(s@),
        None => None,
    }
}

/// Append `x` unless the list already holds it.
fn push_unique(list: &mut Vec<String>, x: String, Ghost(s): Ghost<Seq<Seq<char>>>)
    requires
        strings_view(old(list)@) == dedup(s),
    ensures
        strings_view(final(list)@) == dedup(s.push(x@)),
{
    assert(s.push(x@).drop_last() =~= s);
    if !list_has(list, &x) {
        let ghost before = strings_view(list@);
        list.push(x);
        assert(strings_view(list@) =~= before.push(x@));
    }
}

/// Add a plugin name that is present and not empty.
fn add_plugin_name(list: &mut Vec<String>, o: Option<&String>, Ghost(s): Ghost<Seq<Seq<char>>>)
    requires
        strings_view(old(list)@) == dedup(s),
    ensures
        strings_view(final(list)@) == dedup(s + nonempty_value(ref_view(o))),
{
    match o {
        Some(v) => {
            if !v.as_str().is_empty() {
                assert(s + nonempty_value(ref_view(o)) =~= s.push(v@));
                push_unique(list, v.clone(), Ghost(s));
            } else {
                assert(s + nonempty_value(ref_view(o)) =~= s);
            }
        },
        None => {
            assert(s + nonempty_value(ref_view(o)) =~= s);
        },
    }
}

/// Add the base name of a referenced sample that is present and not blank.
fn add_sample_name(list: &mut Vec<String>, o: Option<&String>, Ghost(s): Ghost<Seq<Seq<char>>>)
    requires
        strings_view(old(list)@) == dedup(s),
    ensures
        strings_view(final(list)@) == dedup(s + sample_value(ref_view(o))),
{
    match o {
        Some(v) => {
            let t = trim(v.as_str());
            if !t.as_str().is_empty() {
                let base = match file_name(v.as_str()) {
                    Some(b) => b,
                    None => v.clone(),
                };
                assert(base@ == sample_base(v@));
                assert(s + sample_value(ref_view(o)) =~= s.push(base@));
                push_unique(list, base, Ghost(s));
            } else {
                assert(s + sample_value(ref_view(o)) =~= s);
            }
        },
        None => {
            assert(s + sample_value(ref_view(o)) =~= s);
        },
    }
}

/// The plugins the document uses, in order of first appearance.
fn collect_plugins(nodes: &Vec<XmlNode>) -> (r: Vec<String>)
    requires
        tree_ok(nodes_view(nodes@)),
    ensures
        strings_view(r@) == dedup(plugin_candidates(nodes_view(nodes@), nodes@.len() as int)),
{
    let ghost ns = nodes_view(nodes@);
    let mut out: Vec<String> = Vec::new();
    let mut k: usize = 0;
    assert(strings_view(out@) =~= dedup(plugin_candidates(ns, 0)));
    while k < nodes.len()
        invariant
            k <= nodes@.len(),
            ns == nodes_view(nodes@),
            tree_ok(ns),
            strings_view(out@) == dedup(plugin_candidates(ns, k as int)),
        decreases nodes@.len() - k,
    {
        let n = &nodes[k];
        assert(ns[k as int] == n@);
        let ghost c0 = plugin_candidates(ns, k as int);
        if n.is_element && crate::text::str_is(n.name.as_str(), "PluginDesc") {
            let p1 = vec!["VstPluginInfo", "PlugName"];
            let p2 = vec!["Vst3PluginInfo", "Name"];
            let p3 = vec!["AuPluginInfo", "Name"];
            assert(strs_view(p1@) =~= seq!["VstPluginInfo"@, "PlugName"@]);
            assert(strs_view(p2@) =~= seq!["Vst3PluginInfo"@, "Name"@]);
            assert(strs_view(p3@) =~= seq!["AuPluginInfo"@, "Name"@]);
            let v1 = get_val(nodes, chain(nodes, k, &p1));
            let ghost c1 = c0 + nonempty_value(ref_view(v1));
            add_plugin_name(&mut out, v1, Ghost(c0));
            let v2 = get_val(nodes, chain(nodes, k, &p2));
            let ghost c2 = c1 + nonempty_value(ref_view(v2));
            add_plugin_name(&mut out, v2, Ghost(c1));
            let v3 = get_val(nodes, chain(nodes, k, &p3));
            add_plugin_name(&mut out, v3, Ghost(c2));
            assert(plugin_candidates(ns, k + 1) =~= c2 + nonempty_value(ref_view(v3)));
        } else {
            assert(plugin_candidates(ns, k + 1) =~= c0);
        }
        k = k + 1;
    }
    out
}

/// The samples the document references, by base name, in order of first
/// appearance.
fn collect_samples(nodes: &Vec<XmlNode>) -> (r: Vec<String>)
    requires
        tree_ok(nodes_view(nodes@)),
    ensures
        strings_view(r@) == dedup(sample_candidates(nodes_view(nodes@), nodes@.len() as int)),
{
    let ghost ns = nodes_view(nodes@);
    let mut out: Vec<String> = Vec::new();
    let mut k: usize = 0;
    assert(strings_view(out@) =~= dedup(sample_candidates(ns, 0)));
    while k < nodes.len()
        invariant
            k <= nodes@.len(),
            ns == nodes_view(nodes@),
            tree_ok(ns),
            strings_view(out@) == dedup(sample_candidates(ns, k as int)),
        decreases nodes@.len() - k,
    {
        let n = &nodes[k];
        assert(ns[k as int] == n@);
        let ghost c0 = sample_candidates(ns, k as int);
        if n.is_element && crate::text::str_is(n.name.as_str(), "SampleRef") {
            let p = vec!["FileRef", "Name"];
            assert(strs_view(p@) =~= seq!["FileRef"@, "Name"@]);
            let v = get_val(nodes, chain(nodes, k, &p));
            add_sample_name(&mut out, v, Ghost(c0));
            assert(sample_candidates(ns, k + 1) =~= c0 + sample_value(ref_view(v)));
        } else {
            assert(sample_candidates(ns, k + 1) =~= c0);
        }
        k = k + 1;
    }
    out
}

/// The metadata of a parsed Live Set document, with the given dates.
pub fn als_meta_from_nodes(nodes: &Vec<XmlNode>, file_mod_date: i64, created_date: i64) -> (r: Option<AlsMeta>)
    requires
        tree_ok(nodes_view(nodes@)),
    ensures
        meta_opt_view(r) == als_meta_spec(nodes_view(nodes@), file_mod_date, created_date),
{
    let ghost ns = nodes_view(nodes@);
    let root = match root_element(nodes) {
        Some(r) => r,
        None => return None,
    };
    let ls = match child(nodes, root, "LiveSet") {
        Some(l) => l,
        None => return None,
    };
    proof {
        lemma_child_in_range(ns, root as int, "LiveSet"@);
    }
    let ableton_version = clone_opt(attribute(nodes, root, "Creator"));
    let tempo = tempo_node(nodes, ls);
    let bpm_text = clone_opt(get_val(nodes, child_of(nodes, tempo, "Manual")));
    let (key_root, key_scale, key_confirmed) = read_key(nodes, ls);
    let time_sig_num = time_sig_part(nodes, ls, "Numerator");
    let time_sig_den = time_sig_part(nodes, ls, "Denominator");
    let active_track_count = active_track_count(nodes, ls);
    let plugins = collect_plugins(nodes);
    let samples = collect_samples(nodes);
    Some(
        AlsMeta {
            bpm_text,
            key_root,
            key_scale,
            key_confirmed,
            time_sig_num,
            time_sig_den,
            active_track_count,
            plugins,
            samples,
            ableton_version,
            file_mod_date,
            created_date,
        },
    )
}

/// The project's creation date: its folder's creation time when known and
/// after the epoch, else the file's modification time.
pub fn created_date(folder_created: Option<i64>, file_mod_date: i64) -> (r: i64)
    ensures
        r == created_date_spec(folder_created, file_mod_date),
{
    match folder_created {
        Some(s) => if s > 0 {
            s
        } else {
            file_mod_date
        },
        None => file_mod_date,
    }
}

/// What reading a Live Set from its compressed bytes gives: `None` when the
/// bytes do not gunzip to text, the text is not XML, or the document has no
/// `LiveSet`; else its metadata.
pub open spec fn parse_als_spec(compressed: Seq<u8>, file_mod_date: i64, folder_created: Option<i64>) -> Option<
    AlsMetaView,
> {
    match gunzip_text(compressed) {
        None => None,
        Some(text) => match xml_nodes(text) {
            None => None,
            Some(ns) => als_meta_spec(ns, file_mod_date, created_date_spec(folder_created, file_mod_date)),
        },
    }
}

/// Read a Live Set from the bytes of its `.als` file, given the file's
/// modification time and its folder's creation time (seconds since the
/// epoch).
pub fn parse_als(compressed: &Vec<u8>, file_mod_date: i64, folder_created: Option<i64>) -> (r: Option<AlsMeta>)
    ensures
        meta_opt_view(r) == parse_als_spec(compressed@, file_mod_date, folder_created),
{
    let created = created_date(folder_created, file_mod_date);
    let text = match gunzip_to_string(compressed.as_slice()) {
        Some(t) => t,
        None => return None,
    };
    let nodes = match parse_xml(text.as_str()) {
        Some(n) => n,
        None => return None,
    };
    als_meta_from_nodes(&nodes, file_mod_date, created)
}

// ── finding and indexing projects ───────────────────────────────────────────

/// What the project walk does with one directory entry.
pub enum AlsEntry {
    /// Passed over: a `Backup` folder, or neither a folder nor a `.als` file.
    Skip,
    /// A folder to walk into.
    Descend,
    /// A Live Set to index.
    Collect,
}

/// Whether the path's extension is `als` in any ASCII case.
pub open spec fn is_als_path(path: Seq<char>) -> bool {
    match extension_spec(path) {
        Some(e) => eq_ignore_ascii_case_spec(e, "als"@),
        None => false,
    }
}

/// The walk passes over entries named `Backup`, walks into folders, and
/// collects files whose extension is `als` in any case.
pub open spec fn als_entry_spec(path: Seq<char>, name: Seq<char>, is_dir: bool, is_file: bool) -> AlsEntry {
    if name == "Backup"@ {
        AlsEntry::Skip
    } else if is_dir {
        AlsEntry::Descend
    } else if is_file && is_als_path(path) {
        AlsEntry::Collect
    } else {
        AlsEntry::Skip
    }
}

/// Classify a directory entry (its full path, its name and its file type)
/// for the project walk.
pub fn classify_als_entry(path: &str, name: &str, is_dir: bool, is_file: bool) -> (r: AlsEntry)
    ensures
        r == als_entry_spec(path@, name@, is_dir, is_file),
{
    if str_is(name, "Backup") {
        return AlsEntry::Skip;
    }
    if is_dir {
        return AlsEntry::Descend;
    }
    if is_file {
        if let Some(e) = extension(path) {
            if eq_ignore_ascii_case(e.as_str(), "als") {
                return AlsEntry::Collect;
            }
        }
    }
    AlsEntry::Skip
}

/// The name a project that failed to parse is reported under: its file name,
/// else the whole path.
pub open spec fn failed_name_spec(path: Seq<char>) -> Seq<char> {
    match file_name_spec(path) {
        Some(n) => n,
        None => path,
    }
}

pub fn failed_name(path: &str) -> (r: String)
    ensures
        r@ == failed_name_spec(path@),
{
    match file_name(path) {
        Some(n) => n,
        None => String::from_str(path),
    }
}

/// The indexed paths among the first `n` of `existing` that are not on disk.
pub open spec fn missing_paths(existing: Seq<Seq<char>>, on_disk: Seq<Seq<char>>, n: int) -> Seq<Seq<char>>
    decreases n,
{
    if n <= 0 {
        Seq::empty()
    } else {
        let prev = missing_paths(existing, on_disk, n - 1);
        if on_disk.contains(existing[n - 1]) {
            prev
        } else {
            prev.push(existing[n - 1])
        }
    }
}

/// The index rows to prune: those whose `.als` is no longer on disk; none at
/// all when the walk found no file, so that an unreadable or misconfigured
/// root never empties the index.
pub open spec fn orphans_spec(existing: Seq<Seq<char>>, on_disk: Seq<Seq<char>>) -> Seq<Seq<char>> {
    if on_disk.len() == 0 {
        Seq::empty()
    } else {
        missing_paths(existing, on_disk, existing.len() as int)
    }
}

/// The indexed project paths to prune, given every `.als` path found on disk.
pub fn orphan_projects(existing: &Vec<String>, on_disk: &Vec<String>) -> (r: Vec<String>)
    ensures
        strings_view(r@) == orphans_spec(strings_view(existing@), strings_view(on_disk@)),
{
    let ghost ev = strings_view(existing@);
    let ghost dv = strings_view(on_disk@);
    let mut out: Vec<String> = Vec::new();
    if on_disk.len() == 0 {
        assert(strings_view(out@) =~= Seq::<Seq<char>>::empty());
        return out;
    }
    let mut k: usize = 0;
    while k < existing.len()
        invariant
            k <= existing@.len(),
            ev == strings_view(existing@),
            dv == strings_view(on_disk@),
            strings_view(out@) == missing_paths(ev, dv, k as int),
        decreases existing@.len() - k,
    {
        assert(ev[k as int] == existing@[k as int]@);
        if !list_has(on_disk, &existing[k]) {
            let ghost before = strings_view(out@);
            out.push(existing[k].clone());
            assert(strings_view(out@) =~= before.push(ev[k as int]));
        }
        k = k + 1;
    }
    out
}

// ── file times ──────────────────────────────────────────────────────────────

#[verifier::external_type_specification]
#[verifier::external_body]
pub struct ExSystemTime(std::time::SystemTime);

/// The time from the Unix epoch to `t`, or `None` when `t` lies before the
/// epoch.
pub uninterp spec fn epoch_duration(t: std::time::SystemTime) -> Option<std::time::Duration>;

/// `SystemTime::duration_since(UNIX_EPOCH)`: the time since the epoch, `None`
/// when `t` is earlier (the call's error). The value depends on `t` alone and
/// is named, not computed here.
#[verifier::external_body]
fn duration_since_epoch(t: std::time::SystemTime) -> (r: Option<std::time::Duration>)
    ensures
        r == epoch_duration(t),
{
    t.duration_since(std::time::UNIX_EPOCH).ok()
}

/// The whole seconds of `d`.
pub uninterp spec fn whole_secs(d: std::time::Duration) -> u64;

/// `Duration::as_secs`: the whole seconds of `d`, named, not computed here.
#[verifier::external_body]
fn duration_secs(d: std::time::Duration) -> (r: u64)
    ensures
        r == whole_secs(d),
{
    d.as_secs()
}

/// Whole seconds since the epoch as stored: the seconds as `i64` (as `as`
/// converts them), 0 for a time before the epoch.
pub fn secs_as_i64(since_epoch: Option<u64>) -> (r: i64)
    ensures
        r == match since_epoch {
            Some(s) => s as i64,
            None => 0i64,
        },
{
    match since_epoch {
        Some(s) => s as i64,
        None => 0,
    }
}

/// Seconds since the epoch of a file time (0 before the epoch).
pub fn systime_secs(t: std::time::SystemTime) -> (r: i64)
    ensures
        r == match epoch_duration(t) {
            Some(d) => whole_secs(d) as i64,
            None => 0i64,
        },
{
    let since = match duration_since_epoch(t) {
        Some(d) => Some(duration_secs(d)),
        None => None,
    };
    secs_as_i64(since)
}

} // verus!
