//! The editor's rules for translations: which imported translations are kept,
//! how a scene's strings are replaced and a container repacked, what is
//! exported, and where a rebuilt container goes.
use vstd::prelude::*;
use crate::bytes::copy_bytes;
use crate::e0::Container;
use crate::encoding::{
    decode_string, elements_to_display, encode_display_string, spec_decode_string,
    spec_elements_to_display, spec_encode_display_string, CharTable, CharTableView,
};
use crate::iso::{FILE_IDX_E0, FILE_IDX_E1, FILE_IDX_E2, FILE_IDX_E3};
use crate::script::{
    terminated, parse_script, rebuild_script, spec_parse_script, spec_rebuild_script, text_blob,
    EventScript, EventScriptView,
};

verus! {

/// The file name shown for a text container of the file table.
pub fn file_name(file_index: usize) -> (name: &'static str)
    ensures
        file_index == FILE_IDX_E0 ==> name@ == "E0.BIN"@,
        file_index == FILE_IDX_E1 ==> name@ == "E1.BIN"@,
        file_index == FILE_IDX_E2 ==> name@ == "E2.BIN"@,
        file_index == FILE_IDX_E3 ==> name@ == "E3.BIN"@,
        !(FILE_IDX_E0 <= file_index <= FILE_IDX_E3) ==> name@ == "unknown"@,
{
    match file_index {
        FILE_IDX_E0 => "E0.BIN",
        FILE_IDX_E1 => "E1.BIN",
        FILE_IDX_E2 => "E2.BIN",
        FILE_IDX_E3 => "E3.BIN",
        _ => "unknown",
    }
}

/// An imported translation is kept when it is not empty and differs from the
/// original text.
pub fn keeps_translation(original: &String, translation: &String) -> (keep: bool)
    ensures
        keep == (translation@ != original@ && translation@.len() > 0),
{
    let differs = !(translation.eq(original));
    let empty = translation.as_str().unicode_len() == 0;
    differs && !empty
}

/// The number of strings that have a translation.
pub open spec fn count_translated(translations: Seq<Option<String>>) -> nat
    decreases translations.len(),
{
    if translations.len() == 0 {
        0
    } else {
        count_translated(translations.drop_last()) + if translations.last() is Some {
            1nat
        } else {
            0nat
        }
    }
}

/// The translation given for string `i` of a scene, if any (none past the end
/// of the list).
pub open spec fn translation_of(ts: Seq<Option<String>>, i: int) -> Option<String> {
    if 0 <= i < ts.len() {
        ts[i]
    } else {
        None
    }
}

/// The translations of a scene's `n` strings, one per string.
pub open spec fn padded(ts: Seq<Option<String>>, n: nat) -> Seq<Option<String>> {
    Seq::new(n, |i: int| translation_of(ts, i))
}

/// Every given translation is short enough to encode.
pub open spec fn texts_fit(ts: Seq<Option<String>>) -> bool {
    forall|i: int| 0 <= i < ts.len() ==> (#[trigger] ts[i] matches Some(text) ==> text@.len() <= isize::MAX)
}

/// The new raw bytes of string `i` of a scene: its translation encoded, or
/// the original bytes when it has no translation.
pub open spec fn scene_string(
    s: EventScriptView,
    ts: Seq<Option<String>>,
    t: CharTableView,
    i: int,
) -> Seq<u8> {
    match translation_of(ts, i) {
        Some(text) => spec_encode_display_string(text@, t),
        None => s.strings[i].raw,
    }
}

/// The new strings of a scene, one per original string.
pub open spec fn scene_strings(s: EventScriptView, ts: Seq<Option<String>>, t: CharTableView) -> Seq<Seq<u8>> {
    Seq::new(s.strings.len(), |i: int| scene_string(s, ts, t, i))
}

/// The new strings of a scene, one per original string (`translations[i]` is
/// the translation of string `i`, if any), and how many were translated.
pub fn translated_strings(
    script: &EventScript,
    translations: &Vec<Option<String>>,
    table: &CharTable,
) -> (r: (Vec<Vec<u8>>, usize))
    requires
        texts_fit(translations@),
    ensures
        r.0@.map_values(|v: Vec<u8>| v@) == scene_strings(script@, translations@, table@),
        r.1 == count_translated(padded(translations@, script@.strings.len())),
{
    let n = script.strings.len();
    let ghost ts = padded(translations@, n as nat);
    let mut new_strings: Vec<Vec<u8>> = Vec::with_capacity(n);
    let mut applied: usize = 0;
    let mut i: usize = 0;
    while i < n
        invariant
            n == script@.strings.len(),
            ts == padded(translations@, n as nat),
            texts_fit(translations@),
            i <= n,
            new_strings@.len() == i,
            forall|j: int|
                0 <= j < i ==> (#[trigger] new_strings@[j])@ == scene_string(
                    script@,
                    translations@,
                    table@,
                    j,
                ),
            applied == count_translated(ts.take(i as int)),
            applied <= i,
        decreases n - i,
    {
        proof {
            assert(ts.take(i + 1).drop_last() =~= ts.take(i as int));
            assert(ts.take(i + 1).last() == translation_of(translations@, i as int));
        }
        let tr: Option<&String> = if i < translations.len() {
            match &translations[i] {
                Some(text) => Some(text),
                None => None,
            }
        } else {
            None
        };
        match tr {
            Some(text) => {
                new_strings.push(encode_display_string(text.as_str(), table));
                applied += 1;
            },
            None => {
                let raw = copy_bytes(script.strings[i].raw.as_slice());
                new_strings.push(raw);
            },
        }
        i += 1;
    }
    assert(ts.take(n as int) =~= ts);
    assert(new_strings@.map_values(|v: Vec<u8>| v@) =~= scene_strings(script@, translations@, table@));
    (new_strings, applied)
}

// ---------------------------------------------------------------------------
// Applying the translations of a container
// ---------------------------------------------------------------------------

/// The translations listed for scene `k`, if any (the last entry for `k`).
pub open spec fn translations_for(scenes: Seq<(usize, Vec<Option<String>>)>, k: int) -> Option<
    Seq<Option<String>>,
>
    decreases scenes.len(),
{
    if scenes.len() == 0 {
        None
    } else if scenes.last().0 == k {
        Some(scenes.last().1@)
    } else {
        translations_for(scenes.drop_last(), k)
    }
}

/// No scene is listed twice.
pub open spec fn distinct_scenes(scenes: Seq<(usize, Vec<Option<String>>)>) -> bool {
    forall|i: int, j: int| 0 <= i < j < scenes.len() ==> #[trigger] scenes[i].0 != #[trigger] scenes[j].0
}

/// How many strings of a sub-file the translations translate: none when it
/// does not parse as a script.
pub open spec fn scene_applied(sub: Seq<u8>, ts: Seq<Option<String>>) -> nat {
    match spec_parse_script(sub) {
        Some(s) => count_translated(padded(ts, s.strings.len())),
        None => 0,
    }
}

/// How many strings a listed scene translates (none when it is out of range).
pub open spec fn entry_applied(subs: Seq<Seq<u8>>, e: (usize, Vec<Option<String>>)) -> nat {
    if e.0 < subs.len() {
        scene_applied(subs[e.0 as int], e.1@)
    } else {
        0
    }
}

/// How many strings all the listed scenes translate.
pub open spec fn total_applied(subs: Seq<Seq<u8>>, scenes: Seq<(usize, Vec<Option<String>>)>) -> nat
    decreases scenes.len(),
{
    if scenes.len() == 0 {
        0
    } else {
        total_applied(subs, scenes.drop_last()) + entry_applied(subs, scenes.last())
    }
}

/// A sub-file after its scene's translations are applied: rebuilt with its new
/// strings when it parses as a script and at least one string is translated,
/// unchanged otherwise.
pub open spec fn rebuilt_scene(sub: Seq<u8>, ts: Seq<Option<String>>, t: CharTableView) -> Seq<u8> {
    match spec_parse_script(sub) {
        Some(s) => if count_translated(padded(ts, s.strings.len())) > 0 {
            spec_rebuild_script(s, scene_strings(s, ts, t))->0
        } else {
            sub
        },
        None => sub,
    }
}

/// The sub-files of a container after the listed scenes' translations are
/// applied; scenes that are not listed stay as they are.
pub open spec fn spec_apply_translations(
    subs: Seq<Seq<u8>>,
    scenes: Seq<(usize, Vec<Option<String>>)>,
    t: CharTableView,
) -> Seq<Seq<u8>> {
    Seq::new(
        subs.len(),
        |k: int|
            match translations_for(scenes, k) {
                Some(ts) => rebuilt_scene(subs[k], ts, t),
                None => subs[k],
            },
    )
}

/// A rebuilt scene's text fits in memory addresses.
pub open spec fn scene_fits(sub: Seq<u8>, ts: Seq<Option<String>>, t: CharTableView) -> bool {
    match spec_parse_script(sub) {
        Some(s) => count_translated(padded(ts, s.strings.len())) > 0 ==> s.ett + text_blob(
            scene_strings(s, ts, t),
        ).len() <= usize::MAX,
        None => true,
    }
}

/// The translations can be applied without exceeding the machine's sizes:
/// every text can be encoded, every rebuilt scene's text and the count of
/// translated strings fit in `usize`.
pub open spec fn spec_translations_fit(
    subs: Seq<Seq<u8>>,
    scenes: Seq<(usize, Vec<Option<String>>)>,
    t: CharTableView,
) -> bool {
    &&& forall|j: int| 0 <= j < scenes.len() ==> texts_fit(#[trigger] scenes[j].1@)
    &&& forall|j: int|
        0 <= j < scenes.len() && scenes[j].0 < subs.len() ==> scene_fits(
            subs[#[trigger] scenes[j].0 as int],
            scenes[j].1@,
            t,
        )
    &&& total_applied(subs, scenes) <= usize::MAX
}

proof fn lemma_translations_absent(scenes: Seq<(usize, Vec<Option<String>>)>, m: int, k: int)
    requires
        0 <= m <= scenes.len(),
        forall|i: int| 0 <= i < m ==> scenes[i].0 != k,
    ensures
        translations_for(scenes.take(m), k) is None,
    decreases m,
{
    if m > 0 {
        assert(scenes.take(m).drop_last() =~= scenes.take(m - 1));
        lemma_translations_absent(scenes, m - 1, k);
    }
}

proof fn lemma_total_applied_prefix(subs: Seq<Seq<u8>>, scenes: Seq<(usize, Vec<Option<String>>)>, j: int)
    requires
        0 <= j <= scenes.len(),
    ensures
        total_applied(subs, scenes.take(j)) <= total_applied(subs, scenes),
    decreases scenes.len(),
{
    if j == scenes.len() {
        assert(scenes.take(j) =~= scenes);
    } else {
        lemma_total_applied_prefix(subs, scenes.drop_last(), j);
        assert(scenes.drop_last().take(j) =~= scenes.take(j));
    }
}

/// The text length of the blob of `news`, computed without overflow, or `None`
/// when it exceeds `limit`.
fn blob_len_within(news: &Vec<Vec<u8>>, limit: usize) -> (r: Option<usize>)
    ensures
        match r {
            Some(n) => n == text_blob(news@.map_values(|v: Vec<u8>| v@)).len() && n <= limit,
            None => text_blob(news@.map_values(|v: Vec<u8>| v@)).len() > limit,
        },
{
    let ghost all = news@.map_values(|v: Vec<u8>| v@);
    let mut total: usize = 0;
    let mut i: usize = 0;
    while i < news.len()
        invariant
            all == news@.map_values(|v: Vec<u8>| v@),
            i <= news@.len(),
            total == text_blob(all.take(i as int)).len(),
            total <= limit,
        decreases news@.len() - i,
    {
        proof {
            assert(all.take(i + 1).drop_last() =~= all.take(i as int));
            assert(all.take(i + 1).last() == news@[i as int]@);
            assert(text_blob(all.take(i + 1)).len() == total + terminated(news@[i as int]@).len());
            assert(all.take(all.len() as int) =~= all);
        }
        let v = &news[i];
        let w = if v.len() >= 2 && v[v.len() - 2] == 0xFF && v[v.len() - 1] == 0x01 {
            v.len()
        } else {
            if v.len() > usize::MAX - 2 {
                proof { lemma_blob_grows(all, i as int + 1, all.len() as int); }
                return None;
            }
            v.len() + 2
        };
        if w > limit - total {
            proof { lemma_blob_grows(all, i as int + 1, all.len() as int); }
            return None;
        }
        total = total + w;
        i += 1;
    }
    assert(all.take(news.len() as int) =~= all);
    Some(total)
}

proof fn lemma_blob_grows(news: Seq<Seq<u8>>, a: int, b: int)
    requires
        0 <= a <= b <= news.len(),
    ensures
        text_blob(news.take(a)).len() <= text_blob(news.take(b)).len(),
    decreases b - a,
{
    if a < b {
        lemma_blob_grows(news, a, b - 1);
        assert(news.take(b).drop_last() =~= news.take(b - 1));
    }
    assert(news.take(news.len() as int) =~= news);
}

/// Whether the translations can be applied to the container within the
/// machine's sizes (see `spec_translations_fit`).
pub fn translations_fit(
    container: &Container,
    scenes: &Vec<(usize, Vec<Option<String>>)>,
    table: &CharTable,
) -> (b: bool)
    ensures
        b == spec_translations_fit(container@, scenes@, table@),
{
    let ghost subs = container@;
    // every text can be encoded
    let mut j: usize = 0;
    while j < scenes.len()
        invariant
            j <= scenes@.len(),
            forall|q: int| 0 <= q < j ==> texts_fit(#[trigger] scenes@[q].1@),
        decreases scenes@.len() - j,
    {
        let ts = &scenes[j].1;
        let mut i: usize = 0;
        while i < ts.len()
            invariant
                j < scenes@.len(),
                forall|q: int| 0 <= q < j ==> texts_fit(#[trigger] scenes@[q].1@),
                ts@ == scenes@[j as int].1@,
                i <= ts@.len(),
                forall|q: int| 0 <= q < i ==> (#[trigger] ts@[q] matches Some(text) ==> text@.len() <= isize::MAX),
            decreases ts@.len() - i,
        {
            if let Some(text) = &ts[i] {
                if text.as_str().unicode_len() > isize::MAX as usize {
                    assert(!texts_fit(scenes@[j as int].1@));
                    assert(!spec_translations_fit(container@, scenes@, table@));
                    return false;
                }
            }
            i += 1;
        }
        j += 1;
    }
    let mut total: usize = 0;
    let mut j: usize = 0;
    while j < scenes.len()
        invariant
            subs == container@,
            forall|q: int| 0 <= q < scenes@.len() ==> texts_fit(#[trigger] scenes@[q].1@),
            j <= scenes@.len(),
            total == total_applied(subs, scenes@.take(j as int)),
            forall|q: int|
                0 <= q < j && scenes@[q].0 < subs.len() ==> scene_fits(
                    subs[#[trigger] scenes@[q].0 as int],
                    scenes@[q].1@,
                    table@,
                ),
        decreases scenes@.len() - j,
    {
        proof {
            assert(scenes@.take(j + 1).drop_last() =~= scenes@.take(j as int));
            assert(scenes@.take(j + 1).last() == scenes@[j as int]);
        }
        let idx = scenes[j].0;
        let mut a: usize = 0;
        if idx < container.sub_files.len() {
            proof { assert(container.sub_files@[idx as int]@ == subs[idx as int]); }
            if let Some(parsed) = parse_script(container.sub_files[idx].as_slice()) {
                let (news, applied) = translated_strings(&parsed, &scenes[j].1, table);
                a = applied;
                if applied > 0 {
                    let limit = usize::MAX - parsed.ett;
                    if blob_len_within(&news, limit).is_none() {
                        assert(!scene_fits(subs[idx as int], scenes@[j as int].1@, table@));
                        assert(scenes@[j as int].0 < subs.len());
                        assert(!spec_translations_fit(container@, scenes@, table@));
                        return false;
                    }
                }
            }
        }
        assert(a == entry_applied(subs, scenes@[j as int]));
        assert(total_applied(subs, scenes@.take(j + 1)) == total + a);
        if total > usize::MAX - a {
            proof { lemma_total_applied_prefix(subs, scenes@, j + 1); }
            assert(!spec_translations_fit(container@, scenes@, table@));
            return false;
        }
        total = total + a;
        j += 1;
    }
    assert(scenes@.take(scenes@.len() as int) =~= scenes@);
    true
}

/// Apply the listed scenes' translations to a container: each listed scene
/// that parses as a script and has at least one translated string is rebuilt
/// with its new strings; everything else stays. Also returns how many strings
/// were translated.
pub fn apply_translations(
    container: &Container,
    scenes: &Vec<(usize, Vec<Option<String>>)>,
    table: &CharTable,
) -> (r: (Container, usize))
    requires
        distinct_scenes(scenes@),
        spec_translations_fit(container@, scenes@, table@),
    ensures
        r.0@ == spec_apply_translations(container@, scenes@, table@),
        r.1 == total_applied(container@, scenes@),
{
    let ghost subs = container@;
    let ghost t = table@;
    let mut out: Vec<Vec<u8>> = Vec::with_capacity(container.sub_files.len());
    let mut k: usize = 0;
    while k < container.sub_files.len()
        invariant
            subs == container@,
            k <= subs.len(),
            out@.len() == k,
            forall|q: int| 0 <= q < k ==> (#[trigger] out@[q])@ == subs[q],
        decreases subs.len() - k,
    {
        out.push(copy_bytes(container.sub_files[k].as_slice()));
        k += 1;
    }
    proof {
        lemma_translations_absent(scenes@, 0, 0);
    }
    let mut applied: usize = 0;
    let mut j: usize = 0;
    while j < scenes.len()
        invariant
            subs == container@,
            t == table@,
            distinct_scenes(scenes@),
            spec_translations_fit(subs, scenes@, t),
            j <= scenes@.len(),
            out@.len() == subs.len(),
            forall|q: int|
                0 <= q < subs.len() ==> (#[trigger] out@[q])@ == match translations_for(
                    scenes@.take(j as int),
                    q,
                ) {
                    Some(ts) => rebuilt_scene(subs[q], ts, t),
                    None => subs[q],
                },
            applied == total_applied(subs, scenes@.take(j as int)),
        decreases scenes@.len() - j,
    {
        let ghost pre = scenes@.take(j as int);
        let ghost post = scenes@.take(j + 1);
        proof {
            assert(post.drop_last() =~= pre);
            assert(post.last() == scenes@[j as int]);
            lemma_total_applied_prefix(subs, scenes@, j + 1);
        }
        let idx = scenes[j].0;
        let ghost ts = scenes@[j as int].1@;
        proof {
            assert forall|i: int| 0 <= i < j implies scenes@[i].0 != idx by {
                assert(scenes@[i].0 != scenes@[j as int].0);
            }
            lemma_translations_absent(scenes@, j as int, idx as int);
        }
        if idx < out.len() {
            let sub_len = container.sub_files[idx].len();
            proof { assert(container.sub_files@[idx as int]@ == subs[idx as int]); }
            if let Some(parsed) = parse_script(container.sub_files[idx].as_slice()) {
                let (news, a) = translated_strings(&parsed, &scenes[j].1, table);
                applied = applied + a;
                if a > 0 {
                    proof {
                        assert(subs[idx as int].len() == sub_len);
                        crate::script::lemma_parsed_strings_match_data(subs[idx as int]);
                        let s = parsed@;
                        assert(s == spec_parse_script(subs[idx as int])->0);
                        if s.strings.len() > 0 {
                            assert(crate::script::string_matches_data(s.data, s.strings[s.strings.len() - 1]));
                        }
                        assert(scene_fits(subs[idx as int], ts, t));
                    }
                    if let Some(rebuilt) = rebuild_script(&parsed, news.as_slice()) {
                        out.set(idx, rebuilt);
                    }
                }
            }
        }
        proof {
            assert forall|q: int| 0 <= q < subs.len() implies (#[trigger] out@[q])@ == match translations_for(post, q) {
                Some(ts) => rebuilt_scene(subs[q], ts, t),
                None => subs[q],
            } by {
                if q != idx {
                    assert(translations_for(post, q) == translations_for(pre, q));
                }
            }
        }
        j += 1;
    }
    proof {
        assert(scenes@.take(scenes@.len() as int) =~= scenes@);
    }
    let c = Container { sub_files: out };
    assert(c@ =~= spec_apply_translations(subs, scenes@, t));
    (c, applied)
}

// ---------------------------------------------------------------------------
// Exporting
// ---------------------------------------------------------------------------

/// How raw string bytes are shown in the editor.
pub open spec fn shown(raw: Seq<u8>, t: CharTableView) -> Seq<char> {
    spec_elements_to_display(spec_decode_string(raw, t))
}

/// String `i` of a scene as exported: its index, its shown original, and its
/// translation, or the shown original when it has none.
pub open spec fn export_entry(
    s: EventScriptView,
    ts: Option<Seq<Option<String>>>,
    t: CharTableView,
    i: int,
) -> (usize, Seq<char>, Seq<char>) {
    let original = shown(s.strings[i].raw, t);
    let translation = match ts {
        Some(ts) => match translation_of(ts, i) {
            Some(text) => text@,
            None => original,
        },
        None => original,
    };
    (i as usize, original, translation)
}

/// The strings of a scene as exported.
pub open spec fn export_scene(
    s: EventScriptView,
    ts: Option<Seq<Option<String>>>,
    t: CharTableView,
) -> Seq<(usize, Seq<char>, Seq<char>)> {
    Seq::new(s.strings.len(), |i: int| export_entry(s, ts, t, i))
}

/// The scenes among the first `k` sub-files that parse as scripts with at least
/// one string, each with its index and its exported strings.
pub open spec fn exported_scenes(
    subs: Seq<Seq<u8>>,
    scenes: Seq<(usize, Vec<Option<String>>)>,
    t: CharTableView,
    k: int,
) -> Seq<(usize, Seq<(usize, Seq<char>, Seq<char>)>)>
    decreases k,
{
    if k <= 0 {
        seq![]
    } else {
        let prev = exported_scenes(subs, scenes, t, k - 1);
        match spec_parse_script(subs[k - 1]) {
            Some(s) => if s.strings.len() > 0 {
                prev.push(((k - 1) as usize, export_scene(s, translations_for(scenes, k - 1), t)))
            } else {
                prev
            },
            None => prev,
        }
    }
}

/// The value of an exported string.
pub open spec fn export_view(x: (usize, String, String)) -> (usize, Seq<char>, Seq<char>) {
    (x.0, x.1@, x.2@)
}

/// The value of an exported scene.
pub open spec fn export_scene_view(e: (usize, Vec<(usize, String, String)>)) -> (
    usize,
    Seq<(usize, Seq<char>, Seq<char>)>,
) {
    (e.0, e.1@.map_values(|x: (usize, String, String)| export_view(x)))
}

/// The index of the translations listed for scene `k` (the last entry for `k`).
fn find_translations(scenes: &Vec<(usize, Vec<Option<String>>)>, k: usize) -> (r: Option<usize>)
    ensures
        match r {
            Some(j) => j < scenes@.len() && translations_for(scenes@, k as int) == Some(
                scenes@[j as int].1@,
            ),
            None => translations_for(scenes@, k as int) is None,
        },
{
    let mut j = scenes.len();
    assert(scenes@.take(j as int) =~= scenes@);
    while j > 0
        invariant
            j <= scenes@.len(),
            translations_for(scenes@, k as int) == translations_for(scenes@.take(j as int), k as int),
        decreases j,
    {
        proof {
            assert(scenes@.take(j as int).drop_last() =~= scenes@.take(j - 1));
            assert(scenes@.take(j as int).last() == scenes@[j - 1]);
        }
        if scenes[j - 1].0 == k {
            return Some(j - 1);
        }
        j -= 1;
    }
    None
}

/// The strings of a parsed scene as the editor lists and exports them: each
/// string's index, its shown original, and its translation, or the shown
/// original when it has none.
pub fn export_scene_strings(
    script: &EventScript,
    translations: Option<&Vec<Option<String>>>,
    table: &CharTable,
) -> (r: Vec<(usize, String, String)>)
    requires
        forall|i: int| 0 <= i < script@.strings.len() ==> (#[trigger] script@.strings[i]).raw.len() <= isize::MAX,
    ensures
        r@.map_values(|x: (usize, String, String)| export_view(x)) == export_scene(
            script@,
            match translations {
                Some(v) => Some(v@),
                None => None,
            },
            table@,
        ),
{
    let ghost ts = match translations {
        Some(v) => Some(v@),
        None => None::<Seq<Option<String>>>,
    };
    let n = script.strings.len();
    let mut r: Vec<(usize, String, String)> = Vec::with_capacity(n);
    let mut i: usize = 0;
    while i < n
        invariant
            n == script@.strings.len(),
            forall|i: int| 0 <= i < script@.strings.len() ==> (#[trigger] script@.strings[i]).raw.len() <= isize::MAX,
            ts == match translations {
                Some(v) => Some(v@),
                None => None::<Seq<Option<String>>>,
            },
            i <= n,
            r@.len() == i,
            forall|q: int| 0 <= q < i ==> export_view(#[trigger] r@[q]) == export_entry(script@, ts, table@, q),
        decreases n - i,
    {
        proof { assert(script.strings@[i as int]@ == script@.strings[i as int]); }
        let original = elements_to_display(decode_string(script.strings[i].raw.as_slice(), table).as_slice());
        let translation = match translations {
            Some(v) => if i < v.len() {
                match &v[i] {
                    Some(text) => text.clone(),
                    None => original.clone(),
                }
            } else {
                original.clone()
            },
            None => original.clone(),
        };
        r.push((i, original, translation));
        i += 1;
    }
    assert(r@.map_values(|x: (usize, String, String)| export_view(x)) =~= export_scene(script@, ts, table@));
    r
}

/// The scenes of a container as the editor exports them: every sub-file that
/// parses as a script with at least one string, with its index and its
/// strings (see `export_scene_strings`); `translations` lists the
/// translations of each scene.
pub fn export_scenes(
    container: &Container,
    translations: &Vec<(usize, Vec<Option<String>>)>,
    table: &CharTable,
) -> (r: Vec<(usize, Vec<(usize, String, String)>)>)
    requires
        forall|k: int| 0 <= k < container@.len() ==> (#[trigger] container@[k]).len() <= isize::MAX,
    ensures
        r@.map_values(|e: (usize, Vec<(usize, String, String)>)| export_scene_view(e))
            == exported_scenes(container@, translations@, table@, container@.len() as int),
{
    let ghost subs = container@;
    let mut r: Vec<(usize, Vec<(usize, String, String)>)> = Vec::new();
    let mut k: usize = 0;
    while k < container.sub_files.len()
        invariant
            subs == container@,
            forall|k: int| 0 <= k < subs.len() ==> (#[trigger] subs[k]).len() <= isize::MAX,
            k <= subs.len(),
            r@.map_values(|e: (usize, Vec<(usize, String, String)>)| export_scene_view(e))
                == exported_scenes(subs, translations@, table@, k as int),
        decreases subs.len() - k,
    {
        let ghost before = r@.map_values(|e: (usize, Vec<(usize, String, String)>)| export_scene_view(e));
        proof { assert(container.sub_files@[k as int]@ == subs[k as int]); }
        if let Some(parsed) = parse_script(container.sub_files[k].as_slice()) {
            if parsed.strings.len() > 0 {
                proof {
                    crate::script::lemma_parsed_strings_match_data(subs[k as int]);
                    let ghost s = spec_parse_script(subs[k as int])->0;
                    assert(parsed@ == s);
                    assert(s.data.len() <= subs[k as int].len());
                    assert forall|i: int| 0 <= i < parsed@.strings.len() implies (#[trigger] parsed@.strings[i]).raw.len() <= isize::MAX by {
                        assert(crate::script::string_matches_data(s.data, s.strings[i]));
                    }
                }
                let found = find_translations(translations, k);
                let strings = match found {
                    Some(j) => export_scene_strings(&parsed, Some(&translations[j].1), table),
                    None => export_scene_strings(&parsed, None, table),
                };
                r.push((k, strings));
                assert(r@.map_values(|e: (usize, Vec<(usize, String, String)>)| export_scene_view(e)) =~= before.push(
                    (k, export_scene(parsed@, translations_for(translations@, k as int), table@)),
                ));
            }
        }
        k += 1;
    }
    r
}

/// The number of strings of a sub-file: those of its script, or none when it
/// does not parse as one.
pub open spec fn scene_string_count(sub: Seq<u8>) -> nat {
    match spec_parse_script(sub) {
        Some(s) => s.strings.len(),
        None => 0,
    }
}

/// For each sub-file of a container, its size and its number of strings.
pub fn scene_summaries(container: &Container) -> (r: Vec<(usize, usize)>)
    ensures
        r@.len() == container@.len(),
        forall|k: int|
            0 <= k < r@.len() ==> (#[trigger] r@[k]).0 == container@[k].len() && r@[k].1
                == scene_string_count(container@[k]),
{
    let mut r: Vec<(usize, usize)> = Vec::with_capacity(container.sub_files.len());
    let mut k: usize = 0;
    while k < container.sub_files.len()
        invariant
            k <= container@.len(),
            r@.len() == k,
            forall|q: int|
                0 <= q < k ==> (#[trigger] r@[q]).0 == container@[q].len() && r@[q].1
                    == scene_string_count(container@[q]),
        decreases container@.len() - k,
    {
        proof { assert(container.sub_files@[k as int]@ == container@[k as int]); }
        let sub = &container.sub_files[k];
        let count = match parse_script(sub.as_slice()) {
            Some(parsed) => parsed.strings.len(),
            None => 0,
        };
        r.push((sub.len(), count));
        k += 1;
    }
    r
}

/// A rebuilt container is written over the original when its length, as the
/// 32-bit size it is compared in, does not exceed the original size; else it
/// is appended to the image and the file table updated.
pub fn written_in_place(new_len: usize, orig_size: u32) -> (in_place: bool)
    ensures
        in_place == ((new_len as int % 0x1_0000_0000) <= orig_size),
{
    assert((new_len as u32) as int == new_len as int % 0x1_0000_0000) by (bit_vector);
    new_len as u32 <= orig_size
}

} // verus!
