//! Execution modes: the registry of modes (`ModeExe.toml`), the active mode
//! of each build kept in the `.env` file, and the rules on creating,
//! renaming, deleting and selecting a mode.
//!
//! Files are read and written by the application; this module decides on
//! their contents.
use vstd::prelude::*;

use crate::corrections::first_match;
use crate::text::{
    chars_of, is_white_space, joined, leading, starts_with, string_of, trailing, trim_by, trim_exec,
    trim_quotes_exec, trimmed,
};

verus! {

broadcast use vstd::seq_lib::group_seq_properties;

/// One execution mode of the registry.
#[derive(Clone, Debug)]
pub struct ModeInfo {
    pub nom: String,
    pub descrition: String,
    /// Creation time, `YYYY-MM-DD HH:MM:SS`.
    pub creation: String,
    /// Time of the last change, if any.
    pub revision: Option<String>,
}

/// The registry of execution modes.
#[derive(Clone, Debug)]
pub struct ModeConfig {
    pub modes: Vec<ModeInfo>,
}

/// Build kind and active mode of each build.
#[derive(Clone, Debug)]
pub struct ExecutionEnv {
    pub is_dev: bool,
    pub active_mode_dev: String,
    pub active_mode_prod: String,
}

/// Model of a mode: its texts as character sequences.
pub struct ModeView {
    pub nom: Seq<char>,
    pub descrition: Seq<char>,
    pub creation: Seq<char>,
    pub revision: Option<Seq<char>>,
}

impl View for ModeInfo {
    type V = ModeView;

    open spec fn view(&self) -> ModeView {
        ModeView {
            nom: self.nom@,
            descrition: self.descrition@,
            creation: self.creation@,
            revision: match self.revision {
                Some(r) => Some(r@),
                None => None,
            },
        }
    }
}

/// Models of the modes of a registry.
pub open spec fn mode_views(v: Seq<ModeInfo>) -> Seq<ModeView> {
    v.map_values(|m: ModeInfo| m@)
}

/// The operational mode, always present.
pub open spec fn ope() -> Seq<char> {
    "OPE"@
}

/// Prefix of the name of every mode but the operational one.
pub open spec fn eval_prefix() -> Seq<char> {
    "EVAL_"@
}

/// The registry written when there is none: the operational mode alone.
pub open spec fn initial_modes() -> Seq<ModeView> {
    seq![
        ModeView {
            nom: "OPE"@,
            descrition: "Mode opérationnel par défaut"@,
            creation: "2026-05-15 15:12:28"@,
            revision: None,
        },
    ]
}

/// The registry written when there is none.
pub fn initial_mode_config() -> (r: ModeConfig)
    ensures
        mode_views(r.modes@) == initial_modes(),
{
    let m = ModeInfo {
        nom: String::from_str("OPE"),
        descrition: String::from_str("Mode opérationnel par défaut"),
        creation: String::from_str("2026-05-15 15:12:28"),
        revision: None,
    };
    let mut modes: Vec<ModeInfo> = Vec::new();
    modes.push(m);
    assert(mode_views(modes@) =~= initial_modes());
    ModeConfig { modes }
}

/// Some mode of `modes` is named `nom`.
pub open spec fn has_mode(modes: Seq<ModeView>, nom: Seq<char>) -> bool {
    exists|i: int| 0 <= i < modes.len() && (#[trigger] modes[i]).nom == nom
}

/// Position of the first mode named `nom`.
pub open spec fn mode_position(modes: Seq<ModeView>, nom: Seq<char>) -> Option<int> {
    if has_mode(modes, nom) {
        Some(choose|i: int| 0 <= i < modes.len() && (#[trigger] modes[i]).nom == nom && forall|j: int|
            0 <= j < i ==> (#[trigger] modes[j]).nom != nom)
    } else {
        None
    }
}

/// Position of the first mode named `nom`.
pub fn find_mode(config: &ModeConfig, nom: &str) -> (r: Option<usize>)
    ensures
        match r {
            Some(i) => i < config.modes@.len() && config.modes@[i as int].nom@ == nom@ && mode_position(
                mode_views(config.modes@),
                nom@,
            ) == Some(i as int),
            None => mode_position(mode_views(config.modes@), nom@) is None,
        },
{
    let ghost ms = mode_views(config.modes@);
    let key = String::from_str(nom);
    let mut i: usize = 0;
    while i < config.modes.len()
        invariant
            0 <= i <= config.modes@.len(),
            ms == mode_views(config.modes@),
            key@ == nom@,
            forall|j: int| 0 <= j < i ==> (#[trigger] ms[j]).nom != nom@,
        decreases config.modes.len() - i,
    {
        assert(ms[i as int] == config.modes@[i as int]@);
        if config.modes[i].nom == key {
            proof {
                let k = choose|k: int| 0 <= k < ms.len() && (#[trigger] ms[k]).nom == nom@ && forall|j: int|
                    0 <= j < k ==> (#[trigger] ms[j]).nom != nom@;
                assert(ms[i as int].nom == nom@);
                if k < i {
                    assert(ms[k].nom != nom@);
                }
                if k > i {
                    assert(ms[i as int].nom != nom@);
                }
            }
            return Some(i);
        }
        i = i + 1;
    }
    None
}

} // verus!

verus! {

/// `nom` is the name of the operational mode.
fn is_ope(nom: &str) -> (r: bool)
    ensures
        r == (nom@ == ope()),
{
    let a = String::from_str(nom);
    let b = String::from_str("OPE");
    a == b
}

/// `nom` starts with `EVAL_`.
fn has_eval_prefix(nom: &str) -> (r: bool)
    ensures
        r == starts_with(nom@, eval_prefix()),
{
    let s = chars_of(nom);
    let p = chars_of("EVAL_");
    crate::text::starts_with_exec(&s, &p)
}

/// Why a mode named `nom` cannot be created.
pub open spec fn create_refusal(modes: Seq<ModeView>, nom: Seq<char>) -> Option<Seq<char>> {
    if !starts_with(nom, eval_prefix()) {
        Some("Le nom du mode doit commencer par 'EVAL_'"@)
    } else if has_mode(modes, nom) {
        Some("Un mode d'exécution avec ce nom existe déjà"@)
    } else {
        None
    }
}

/// Adds the mode `nom`, created at `now` (the local time, read by the
/// caller), to the registry; its name must start with `EVAL_` and be new.
pub fn create_mode_entry(config: &mut ModeConfig, nom: String, descrition: String, now: String) -> (r: Result<(), String>)
    ensures
        match create_refusal(mode_views(old(config).modes@), nom@) {
            Some(m) => r matches Err(e) && e@ == m && final(config).modes@ == old(config).modes@,
            None => r is Ok && mode_views(final(config).modes@) == mode_views(old(config).modes@).push(
                ModeView { nom: nom@, descrition: descrition@, creation: now@, revision: None },
            ),
        },
{
    if !has_eval_prefix(nom.as_str()) {
        return Err(String::from_str("Le nom du mode doit commencer par 'EVAL_'"));
    }
    if find_mode(config, nom.as_str()).is_some() {
        return Err(String::from_str("Un mode d'exécution avec ce nom existe déjà"));
    }
    let ghost before = config.modes@;
    config.modes.push(ModeInfo { nom, descrition, creation: now, revision: None });
    assert(mode_views(config.modes@) =~= mode_views(before).push(config.modes@.last()@));
    Ok(())
}

} // verus!

verus! {

/// Why the mode `old_nom` cannot become `new_nom`.
pub open spec fn update_refusal(modes: Seq<ModeView>, old_nom: Seq<char>, new_nom: Seq<char>) -> Option<Seq<char>> {
    if old_nom == ope() {
        Some("Le mode OPE ne peut pas être modifié"@)
    } else if !starts_with(new_nom, eval_prefix()) {
        Some("Le nom du mode doit commencer par 'EVAL_'"@)
    } else if !has_mode(modes, old_nom) {
        Some("Mode d'exécution introuvable"@)
    } else if old_nom != new_nom && has_mode(modes, new_nom) {
        Some("Un mode d'exécution avec ce nouveau nom existe déjà"@)
    } else {
        None
    }
}

/// The registry where the first mode named `old_nom` is renamed `new_nom`,
/// described by `descrition` and revised at `t`; its creation time stays.
pub open spec fn updated_modes(
    ms: Seq<ModeView>,
    old_nom: Seq<char>,
    new_nom: Seq<char>,
    descrition: Seq<char>,
    t: Seq<char>,
) -> Seq<ModeView> {
    let i = mode_position(ms, old_nom)->0;
    ms.update(i, ModeView { nom: new_nom, descrition, creation: ms[i].creation, revision: Some(t) })
}

/// Renames and describes again the mode `old_nom` (the first one of that
/// name), stamping its revision with `now`. The operational mode
/// cannot change, the new name must start with `EVAL_` and, when it differs,
/// be new. Returns whether the name changed. `now` is the local time, read
/// by the caller.
pub fn update_mode_entry(config: &mut ModeConfig, old_nom: &str, new_nom: String, descrition: String, now: String) -> (r: Result<bool, String>)
    ensures
        match update_refusal(mode_views(old(config).modes@), old_nom@, new_nom@) {
            Some(m) => r matches Err(e) && e@ == m && final(config).modes@ == old(config).modes@,
            None => r matches Ok(renamed) && renamed == (old_nom@ != new_nom@) && mode_views(final(config).modes@)
                == updated_modes(mode_views(old(config).modes@), old_nom@, new_nom@, descrition@, now@),
        },
{
    if is_ope(old_nom) {
        return Err(String::from_str("Le mode OPE ne peut pas être modifié"));
    }
    if !has_eval_prefix(new_nom.as_str()) {
        return Err(String::from_str("Le nom du mode doit commencer par 'EVAL_'"));
    }
    let idx = match find_mode(config, old_nom) {
        Some(i) => i,
        None => return Err(String::from_str("Mode d'exécution introuvable")),
    };
    let old_text = String::from_str(old_nom);
    let same = old_text == new_nom;
    assert(same == (old_nom@ == new_nom@));
    if !same {
        if find_mode(config, new_nom.as_str()).is_some() {
            return Err(String::from_str("Un mode d'exécution avec ce nouveau nom existe déjà"));
        }
    }
    let ghost ms = mode_views(config.modes@);
    let ghost new_nom_view = new_nom@;
    let ghost descrition_view = descrition@;
    let ghost now_view = now@;
    let creation = config.modes[idx].creation.clone();
    let ghost before = config.modes@;
    config.modes.set(idx, ModeInfo { nom: new_nom, descrition, creation, revision: Some(now) });
    assert(mode_views(config.modes@) =~= ms.update(idx as int, config.modes@[idx as int]@));
    assert(mode_views(config.modes@) == updated_modes(ms, old_nom@, new_nom_view, descrition_view, now_view));
    Ok(!same)
}

/// Why the mode `nom` cannot be deleted while `active` is the active mode.
pub open spec fn delete_refusal(modes: Seq<ModeView>, nom: Seq<char>, active: Seq<char>) -> Option<Seq<char>> {
    if nom == ope() {
        Some("Le mode OPE ne peut pas être supprimé"@)
    } else if active == nom {
        Some("Impossible de supprimer le mode d'exécution actif"@)
    } else if !has_mode(modes, nom) {
        Some("Mode d'exécution introuvable"@)
    } else {
        None
    }
}

/// Removes the mode `nom` (the first one of that name) from the registry.
/// Neither the operational mode nor the active one can be deleted.
pub fn remove_mode_entry(config: &mut ModeConfig, nom: &str, active: &str) -> (r: Result<(), String>)
    ensures
        match delete_refusal(mode_views(old(config).modes@), nom@, active@) {
            Some(m) => r matches Err(e) && e@ == m && final(config).modes@ == old(config).modes@,
            None => r is Ok && mode_views(final(config).modes@) == mode_views(old(config).modes@).remove(
                mode_position(mode_views(old(config).modes@), nom@)->0,
            ),
        },
{
    if is_ope(nom) {
        return Err(String::from_str("Le mode OPE ne peut pas être supprimé"));
    }
    if String::from_str(active) == String::from_str(nom) {
        return Err(String::from_str("Impossible de supprimer le mode d'exécution actif"));
    }
    let idx = match find_mode(config, nom) {
        Some(i) => i,
        None => return Err(String::from_str("Mode d'exécution introuvable")),
    };
    let ghost ms = mode_views(config.modes@);
    config.modes.remove(idx);
    assert(mode_views(config.modes@) =~= ms.remove(idx as int));
    Ok(())
}

/// Why the mode `nom` cannot be selected.
pub open spec fn select_refusal(modes: Seq<ModeView>, nom: Seq<char>) -> Option<Seq<char>> {
    if !has_mode(modes, nom) {
        Some("Mode d'exécution inconnu"@)
    } else {
        None
    }
}

/// Checks that the mode `nom` exists before it becomes the active one.
pub fn check_selectable(config: &ModeConfig, nom: &str) -> (r: Result<(), String>)
    ensures
        match select_refusal(mode_views(config.modes@), nom@) {
            Some(m) => r matches Err(e) && e@ == m,
            None => r is Ok,
        },
{
    if find_mode(config, nom).is_none() {
        return Err(String::from_str("Mode d'exécution inconnu"));
    }
    Ok(())
}

} // verus!

verus! {

/// Pieces of `s` between the `'\n'` characters (one more than there are
/// newlines).
pub open spec fn split_nl(s: Seq<char>) -> Seq<Seq<char>>
    decreases s.len(),
{
    if s.len() == 0 {
        seq![Seq::empty()]
    } else {
        let p = split_nl(s.drop_last());
        if s.last() == '\n' {
            p.push(Seq::empty())
        } else {
            p.update(p.len() - 1, p.last().push(s.last()))
        }
    }
}

proof fn lemma_split_nl_len(s: Seq<char>)
    ensures
        split_nl(s).len() >= 1,
    decreases s.len(),
{
    if s.len() > 0 {
        lemma_split_nl_len(s.drop_last());
    }
}

/// A line without the `'\r'` that ended it.
pub open spec fn strip_cr(l: Seq<char>) -> Seq<char> {
    if l.len() > 0 && l.last() == '\r' {
        l.drop_last()
    } else {
        l
    }
}

/// The lines of `s` (`str::lines`): split at `'\n'`, a `'\r'` right before a
/// `'\n'` dropped, no empty line after a final newline.
pub open spec fn lines_of(s: Seq<char>) -> Seq<Seq<char>> {
    let p = split_nl(s);
    let q = Seq::new(p.len(), |i: int| if i + 1 < p.len() { strip_cr(p[i]) } else { p[i] });
    if q.last().len() == 0 {
        q.drop_last()
    } else {
        q
    }
}

/// The lines of `s`.
pub fn lines(s: &str) -> (r: Vec<String>)
    ensures
        crate::export::string_views(r@) == lines_of(s@),
{
    let cs = chars_of(s);
    let mut out: Vec<String> = Vec::new();
    let mut cur: Vec<char> = Vec::new();
    let mut i: usize = 0;
    proof {
        assert(cs@.subrange(0, 0) =~= Seq::<char>::empty());
    }
    while i < cs.len()
        invariant
            0 <= i <= cs.len(),
            cs@ == s@,
            split_nl(cs@.subrange(0, i as int)).len() == out@.len() + 1,
            cur@ == split_nl(cs@.subrange(0, i as int)).last(),
            forall|j: int| 0 <= j < out@.len() ==> (#[trigger] out@[j])@ == strip_cr(split_nl(cs@.subrange(0, i as int))[j]),
        decreases cs.len() - i,
    {
        let ghost pre = cs@.subrange(0, i as int);
        let ghost nxt = cs@.subrange(0, i + 1);
        assert(nxt.drop_last() =~= pre);
        assert(nxt.last() == cs@[i as int]);
        let c = cs[i];
        if c == '\n' {
            let mut line = cur;
            if line.len() > 0 && line[line.len() - 1] == '\r' {
                line.pop();
                assert(line@ =~= strip_cr(split_nl(pre).last()));
            }
            out.push(string_of(&line));
            cur = Vec::new();
        } else {
            cur.push(c);
        }
        i = i + 1;
    }
    let ghost p = split_nl(cs@);
    assert(cs@.subrange(0, cs@.len() as int) =~= cs@);
    let ghost q = Seq::new(p.len(), |k: int| if k + 1 < p.len() { strip_cr(p[k]) } else { p[k] });
    if cur.len() > 0 {
        out.push(string_of(&cur));
        assert(crate::export::string_views(out@) =~= q);
    } else {
        assert(crate::export::string_views(out@) =~= q.drop_last());
    }
    out
}

/// Key of the active mode of a build in the `.env` file.
pub open spec fn env_key(is_dev: bool) -> Seq<char> {
    if is_dev {
        "APP_ENV_DEV"@
    } else {
        "APP_ENV_PROD"@
    }
}

/// Active mode set by `line` for `key`: the line, trimmed, starts with
/// `key=`; the value after the `=`, trimmed and without its surrounding
/// quotes, is not empty.
pub open spec fn mode_value(line: Seq<char>, key: Seq<char>) -> Option<Seq<char>> {
    let t = trimmed(line);
    if starts_with(t, key + "="@) {
        let v = trim_by(trimmed(t.subrange(key.len() + 1 as int, t.len() as int)), |c: char| crate::text::is_quote(c));
        if v.len() > 0 {
            Some(v)
        } else {
            None
        }
    } else {
        None
    }
}

/// Active mode set by the first line of `lines` that sets one.
pub open spec fn first_mode_value(lines: Seq<Seq<char>>, key: Seq<char>) -> Option<Seq<char>>
    decreases lines.len(),
{
    if lines.len() == 0 {
        None
    } else {
        match mode_value(lines[0], key) {
            Some(v) => Some(v),
            None => first_mode_value(lines.drop_first(), key),
        }
    }
}

/// Active mode of a build read from the `.env` contents: the first line
/// that sets it, else the operational mode.
pub open spec fn active_mode_of(content: Seq<char>, is_dev: bool) -> Seq<char> {
    match first_mode_value(lines_of(content), env_key(is_dev)) {
        Some(v) => v,
        None => ope(),
    }
}

/// The key of the active mode of a build.
fn env_key_text(is_dev: bool) -> (r: String)
    ensures
        r@ == env_key(is_dev),
{
    if is_dev {
        String::from_str("APP_ENV_DEV")
    } else {
        String::from_str("APP_ENV_PROD")
    }
}

/// Active mode set by `line` for `key`.
fn line_mode_value(line: &str, key: &str) -> (r: Option<String>)
    ensures
        crate::types::opt_string_view(r) == mode_value(line@, key@),
{
    let t = trim_exec(&chars_of(line));
    let mut prefix = String::from_str(key);
    prefix.append("=");
    let p = chars_of(prefix.as_str());
    if !crate::text::starts_with_exec(&t, &p) {
        return None;
    }
    let k = key.unicode_len();
    let n = t.len();
    proof {
        reveal_strlit("=");
        assert(p@.len() == key@.len() + 1);
        assert(k + 1 <= t@.len());
        assert(k + 1 <= n);
    }
    let mut rest: Vec<char> = Vec::new();
    let mut i: usize = k + 1;
    while i < t.len()
        invariant
            k + 1 <= i <= t.len(),
            rest@ == t@.subrange(k + 1, i as int),
        decreases t.len() - i,
    {
        rest.push(t[i]);
        i = i + 1;
        assert(rest@ =~= t@.subrange(k + 1, i as int));
    }
    let v = trim_quotes_exec(&trim_exec(&rest));
    if v.len() > 0 {
        Some(string_of(&v))
    } else {
        None
    }
}

/// Active mode of a build read from the `.env` contents.
pub fn active_mode_in(content: &str, is_dev: bool) -> (r: String)
    ensures
        r@ == active_mode_of(content@, is_dev),
{
    let ls = lines(content);
    let key = env_key_text(is_dev);
    let ghost lv = crate::export::string_views(ls@);
    let mut i: usize = 0;
    assert(lv.subrange(0, lv.len() as int) =~= lv);
    while i < ls.len()
        invariant
            0 <= i <= ls@.len(),
            lv == crate::export::string_views(ls@),
            lv == lines_of(content@),
            key@ == env_key(is_dev),
            first_mode_value(lv, key@) == first_mode_value(lv.subrange(i as int, lv.len() as int), key@),
        decreases ls.len() - i,
    {
        let ghost rest = lv.subrange(i as int, lv.len() as int);
        assert(rest[0] == ls@[i as int]@);
        assert(rest.drop_first() =~= lv.subrange(i + 1, lv.len() as int));
        if let Some(v) = line_mode_value(ls[i].as_str(), key.as_str()) {
            return v;
        }
        i = i + 1;
    }
    assert(lv.subrange(i as int, lv.len() as int).len() == 0);
    String::from_str("OPE")
}

/// Contents of the `.env` file written when there is none.
pub open spec fn initial_env() -> Seq<char> {
    "APP_ENV_DEV=OPE\nAPP_ENV_PROD=OPE\n"@
}

/// Contents of the `.env` file written when there is none; the active mode
/// is then the operational one.
pub fn initial_env_text() -> (r: String)
    ensures
        r@ == initial_env(),
{
    String::from_str("APP_ENV_DEV=OPE\nAPP_ENV_PROD=OPE\n")
}

} // verus!

verus! {

/// `line`, trimmed, sets `key`.
pub open spec fn sets_key(line: Seq<char>, key: Seq<char>) -> bool {
    starts_with(trimmed(line), key + "="@)
}

/// `lines` where the first line setting `key` becomes `new_line`, or with
/// `new_line` added at the end when none does.
pub open spec fn lines_with(lines: Seq<Seq<char>>, key: Seq<char>, new_line: Seq<char>) -> Seq<Seq<char>> {
    match first_match(lines, |l: Seq<char>| sets_key(l, key)) {
        Some(i) => lines.update(i, new_line),
        None => lines.push(new_line),
    }
}

/// Each line followed by a newline.
pub open spec fn terminated(lines: Seq<Seq<char>>) -> Seq<char> {
    joined(lines.map_values(|l: Seq<char>| l + "\n"@))
}

/// Contents of the `.env` file once `new_mode` is the active mode of the
/// build: the line of its key replaced, or added; the other lines kept.
pub open spec fn env_with_mode_of(content: Option<Seq<char>>, is_dev: bool, new_mode: Seq<char>) -> Seq<char> {
    let ls = match content {
        Some(c) => lines_of(c),
        None => Seq::empty(),
    };
    terminated(lines_with(ls, env_key(is_dev), env_key(is_dev) + "="@ + new_mode))
}

/// `line`, trimmed, sets `key`.
fn line_sets_key(line: &str, key: &str) -> (r: bool)
    ensures
        r == sets_key(line@, key@),
{
    let t = trim_exec(&chars_of(line));
    let mut prefix = String::from_str(key);
    prefix.append("=");
    crate::text::starts_with_exec(&t, &chars_of(prefix.as_str()))
}

/// Contents of the `.env` file (`None` when there is none or it cannot be
/// read) once `new_mode` is the active mode of the build.
pub fn env_with_active_mode(content: Option<&str>, is_dev: bool, new_mode: &str) -> (r: String)
    ensures
        r@ == env_with_mode_of(crate::export::opt_str_view(content), is_dev, new_mode@),
{
    let mut ls: Vec<String> = match content {
        Some(c) => lines(c),
        None => Vec::new(),
    };
    let ghost lv = crate::export::string_views(ls@);
    assert(lv =~= match crate::export::opt_str_view(content) {
        Some(c) => lines_of(c),
        None => Seq::<Seq<char>>::empty(),
    });
    let key = env_key_text(is_dev);
    let mut new_line = String::from_str(key.as_str());
    new_line.append("=");
    new_line.append(new_mode);
    let ghost p = |l: Seq<char>| sets_key(l, key@);
    let mut i: usize = 0;
    let mut found = false;
    while i < ls.len()
        invariant_except_break
            !found,
        invariant
            0 <= i <= ls@.len(),
            lv == crate::export::string_views(ls@),
            p == (|l: Seq<char>| sets_key(l, key@)),
            forall|j: int| 0 <= j < i ==> !p(#[trigger] lv[j]),
        ensures
            found ==> i < ls@.len() && p(lv[i as int]),
            !found ==> i == ls@.len(),
        decreases ls.len() - i,
    {
        assert(lv[i as int] == ls@[i as int]@);
        if line_sets_key(ls[i].as_str(), key.as_str()) {
            found = true;
            break;
        }
        i = i + 1;
    }
    let ghost updated = lines_with(lv, key@, new_line@);
    if found {
        proof {
            crate::corrections::lemma_first_match_at(lv, p, i as int);
        }
        ls.set(i, new_line);
        assert(crate::export::string_views(ls@) =~= updated);
    } else {
        proof {
            crate::corrections::lemma_first_match_none(lv, p);
        }
        ls.push(new_line);
        assert(crate::export::string_views(ls@) =~= updated);
    }
    let ghost tl = updated.map_values(|l: Seq<char>| l + "\n"@);
    let mut out = String::new();
    let mut k: usize = 0;
    proof {
        reveal_strlit("");
        assert(tl.subrange(0, 0) =~= Seq::<Seq<char>>::empty());
    }
    while k < ls.len()
        invariant
            0 <= k <= ls@.len(),
            updated == crate::export::string_views(ls@),
            tl == updated.map_values(|l: Seq<char>| l + "\n"@),
            out@ == joined(tl.subrange(0, k as int)),
        decreases ls.len() - k,
    {
        out.append(ls[k].as_str());
        out.append("\n");
        assert(tl.subrange(0, k + 1).drop_last() =~= tl.subrange(0, k as int));
        assert(tl[k as int] == ls@[k as int]@ + "\n"@);
        k = k + 1;
    }
    assert(tl.subrange(0, ls@.len() as int) =~= tl);
    out
}

} // verus!

verus! {

/// Trailing characters satisfying `p` stop before a character that does not.
proof fn lemma_trailing_stops(s: Seq<char>, p: spec_fn(char) -> bool, a: int)
    requires
        0 <= a < s.len(),
        !p(s[a]),
    ensures
        trailing(s, p) <= s.len() - 1 - a,
    decreases s.len(),
{
    if p(s.last()) {
        assert(a != s.len() - 1);
        assert(s.drop_last()[a] == s[a]);
        lemma_trailing_stops(s.drop_last(), p, a);
    }
}

/// Trailing white space does not change what trimming keeps.
proof fn lemma_trimmed_push_ws(s: Seq<char>, c: char)
    requires
        is_white_space(c),
    ensures
        trimmed(s.push(c)) == trimmed(s),
{
    let p = |c: char| is_white_space(c);
    let t = s.push(c);
    assert(t.drop_last() =~= s);
    crate::text::lemma_leading_bound(s, p);
    let a = leading(s, p);
    if a == s.len() {
        assert forall|j: int| 0 <= j < t.len() implies p(#[trigger] t[j]) by {
            if j < s.len() {
                assert(t[j] == s[j]);
            }
        }
        crate::text::lemma_leading_is(t, p, t.len() as int);
        assert(trimmed(t) =~= Seq::<char>::empty());
    } else {
        assert forall|j: int| 0 <= j < a implies p(#[trigger] t[j]) by {
            assert(t[j] == s[j]);
        }
        assert(t[a as int] == s[a as int]);
        crate::text::lemma_leading_is(t, p, a as int);
        assert(trailing(t, p) == 1 + trailing(s, p));
        lemma_trailing_stops(s, p, a as int);
        assert(t.subrange(a as int, t.len() - trailing(t, p)) =~= s.subrange(a as int, s.len() - trailing(s, p)));
    }
}

/// Dropping the carriage return that ended a line does not change what
/// trimming keeps.
proof fn lemma_trimmed_strip_cr(l: Seq<char>)
    ensures
        trimmed(strip_cr(l)) == trimmed(l),
{
    if l.len() > 0 && l.last() == '\r' {
        assert(l.drop_last().push('\r') =~= l);
        lemma_trimmed_push_ws(l.drop_last(), '\r');
    }
}

/// Appending a text without newline extends the last piece.
proof fn lemma_split_append(s: Seq<char>, l: Seq<char>)
    requires
        forall|i: int| 0 <= i < l.len() ==> l[i] != '\n',
    ensures
        split_nl(s + l).len() == split_nl(s).len(),
        split_nl(s + l) == split_nl(s).update(split_nl(s).len() - 1, split_nl(s).last() + l),
    decreases l.len(),
{
    lemma_split_nl_len(s);
    if l.len() == 0 {
        assert(s + l =~= s);
        assert(split_nl(s).last() + l =~= split_nl(s).last());
        assert(split_nl(s).update(split_nl(s).len() - 1, split_nl(s).last()) =~= split_nl(s));
    } else {
        let d = l.drop_last();
        lemma_split_append(s, d);
        assert((s + l).drop_last() =~= s + d);
        assert((s + l).last() == l.last());
        let p = split_nl(s + d);
        lemma_split_nl_len(s + d);
        assert((split_nl(s).last() + d).push(l.last()) =~= split_nl(s).last() + l);
        assert(p.last() == split_nl(s).last() + d);
        assert(p.update(p.len() - 1, p.last().push(l.last())) =~= split_nl(s).update(
            split_nl(s).len() - 1,
            split_nl(s).last() + l,
        ));
    }
}

/// A line of text holds no newline.
pub open spec fn no_newline(l: Seq<char>) -> bool {
    forall|i: int| 0 <= i < l.len() ==> l[i] != '\n'
}

/// Lines each followed by a newline split back into those lines, then an
/// empty piece.
proof fn lemma_split_terminated(x: Seq<Seq<char>>)
    requires
        forall|i: int| 0 <= i < x.len() ==> no_newline(#[trigger] x[i]),
    ensures
        split_nl(terminated(x)) == x.push(Seq::<char>::empty()),
    decreases x.len(),
{
    reveal_strlit("\n");
    if x.len() == 0 {
        assert(x.map_values(|l: Seq<char>| l + "\n"@) =~= Seq::<Seq<char>>::empty());
        assert(terminated(x) =~= Seq::<char>::empty());
        assert(split_nl(Seq::<char>::empty()) =~= x.push(Seq::<char>::empty()));
    } else {
        let d = x.drop_last();
        let l = x.last();
        assert forall|i: int| 0 <= i < d.len() implies no_newline(#[trigger] d[i]) by {
            assert(d[i] == x[i]);
        }
        lemma_split_terminated(d);
        let m = x.map_values(|l: Seq<char>| l + "\n"@);
        assert(m.drop_last() =~= d.map_values(|l: Seq<char>| l + "\n"@));
        assert(terminated(x) == terminated(d) + (l + "\n"@));
        let t = terminated(d);
        assert(no_newline(x[x.len() - 1]));
        lemma_split_append(t, l);
        assert(t + (l + "\n"@) =~= (t + l).push('\n'));
        assert((t + l).push('\n').drop_last() =~= t + l);
        assert(split_nl(t).last() + l =~= l);
        assert(split_nl((t + l).push('\n')) =~= x.push(Seq::<char>::empty()));
    }
}

} // verus!

verus! {

proof fn lemma_split_no_newline(s: Seq<char>)
    ensures
        forall|i: int| 0 <= i < split_nl(s).len() ==> no_newline(#[trigger] split_nl(s)[i]),
    decreases s.len(),
{
    lemma_split_nl_len(s);
    if s.len() > 0 {
        lemma_split_no_newline(s.drop_last());
        lemma_split_nl_len(s.drop_last());
        let p = split_nl(s.drop_last());
        if s.last() != '\n' {
            assert forall|i: int| 0 <= i < split_nl(s).len() implies no_newline(#[trigger] split_nl(s)[i]) by {
                if i == p.len() - 1 {
                    assert(no_newline(p[i]));
                    assert(split_nl(s)[i] == p.last().push(s.last()));
                    assert forall|k: int| 0 <= k < split_nl(s)[i].len() implies split_nl(s)[i][k] != '\n' by {
                        if k < p.last().len() {
                            assert(split_nl(s)[i][k] == p[i][k]);
                        }
                    }
                } else {
                    assert(split_nl(s)[i] == p[i]);
                }
            }
        } else {
            assert forall|i: int| 0 <= i < split_nl(s).len() implies no_newline(#[trigger] split_nl(s)[i]) by {
                if i < p.len() {
                    assert(split_nl(s)[i] == p[i]);
                }
            }
        }
    }
}

proof fn lemma_strip_cr_no_newline(l: Seq<char>)
    requires
        no_newline(l),
    ensures
        no_newline(strip_cr(l)),
{
    if l.len() > 0 && l.last() == '\r' {
        assert forall|k: int| 0 <= k < strip_cr(l).len() implies strip_cr(l)[k] != '\n' by {
            assert(strip_cr(l)[k] == l[k]);
        }
    }
}

/// The lines of a text hold no newline.
proof fn lemma_lines_no_newline(s: Seq<char>)
    ensures
        forall|i: int| 0 <= i < lines_of(s).len() ==> no_newline(#[trigger] lines_of(s)[i]),
{
    lemma_split_no_newline(s);
    lemma_split_nl_len(s);
    let p = split_nl(s);
    assert forall|i: int| 0 <= i < lines_of(s).len() implies no_newline(#[trigger] lines_of(s)[i]) by {
        assert(no_newline(p[i]));
        lemma_strip_cr_no_newline(p[i]);
    }
}

/// Lines written each followed by a newline are read back, less a carriage
/// return that ended them.
proof fn lemma_lines_terminated(x: Seq<Seq<char>>)
    requires
        forall|i: int| 0 <= i < x.len() ==> no_newline(#[trigger] x[i]),
    ensures
        lines_of(terminated(x)) == x.map_values(|l: Seq<char>| strip_cr(l)),
{
    lemma_split_terminated(x);
    let p = x.push(Seq::<char>::empty());
    let q = Seq::new(p.len(), |i: int| if i + 1 < p.len() { strip_cr(p[i]) } else { p[i] });
    assert(q.last().len() == 0);
    assert(q.drop_last() =~= x.map_values(|l: Seq<char>| strip_cr(l)));
}

/// The first line that sets a value decides it.
proof fn lemma_first_mode_value_at(z: Seq<Seq<char>>, key: Seq<char>, i: int, v: Seq<char>)
    requires
        0 <= i < z.len(),
        forall|j: int| 0 <= j < i ==> mode_value(#[trigger] z[j], key) is None,
        mode_value(z[i], key) == Some(v),
    ensures
        first_mode_value(z, key) == Some(v),
    decreases i,
{
    if i > 0 {
        assert(mode_value(z[0], key) is None);
        assert forall|j: int| 0 <= j < i - 1 implies mode_value(#[trigger] z.drop_first()[j], key) is None by {
            assert(z.drop_first()[j] == z[j + 1]);
        }
        assert(z.drop_first()[i - 1] == z[i]);
        lemma_first_mode_value_at(z.drop_first(), key, i - 1, v);
    }
}

/// A text whose ends are neither white space nor quotes.
pub open spec fn is_plain_value(m: Seq<char>) -> bool {
    &&& m.len() > 0
    &&& no_newline(m)
    &&& !is_white_space(m[0]) && !is_white_space(m.last())
    &&& !crate::text::is_quote(m[0]) && !crate::text::is_quote(m.last())
}

/// Trimming by `p` keeps a text whose ends do not satisfy `p`.
proof fn lemma_trim_by_plain(m: Seq<char>, p: spec_fn(char) -> bool)
    requires
        m.len() > 0,
        !p(m[0]),
        !p(m.last()),
    ensures
        trim_by(m, p) == m,
{
    crate::text::lemma_leading_is(m, p, 0);
    crate::text::lemma_trailing_is(m, p, 0);
    assert(m.subrange(0, m.len() as int) =~= m);
}

/// The line written for a key sets the value written.
proof fn lemma_mode_value_of_line(key: Seq<char>, m: Seq<char>)
    requires
        key.len() > 0,
        !is_white_space(key[0]),
        is_plain_value(m),
    ensures
        mode_value(key + "="@ + m, key) == Some(m),
        sets_key(key + "="@ + m, key),
        strip_cr(key + "="@ + m) == key + "="@ + m,
{
    reveal_strlit("=");
    let line = key + "="@ + m;
    let ws = |c: char| is_white_space(c);
    assert(line[0] == key[0]);
    assert(line.last() == m.last());
    lemma_trim_by_plain(line, ws);
    assert(trimmed(line) == line);
    assert(line.subrange(0, key.len() + 1 as int) =~= key + "="@);
    assert(starts_with(line, key + "="@));
    assert(line.subrange(key.len() + 1 as int, line.len() as int) =~= m);
    lemma_trim_by_plain(m, ws);
    lemma_trim_by_plain(m, |c: char| crate::text::is_quote(c));
}

/// What is written is read back: once `new_mode` is made the active mode of
/// a build in the `.env` contents, reading the active mode of that build
/// from the new contents gives `new_mode` (a value without newline, whose
/// ends are neither white space nor quotes).
pub proof fn law_active_mode_read_back(content: Option<Seq<char>>, is_dev: bool, new_mode: Seq<char>)
    requires
        is_plain_value(new_mode),
    ensures
        active_mode_of(env_with_mode_of(content, is_dev, new_mode), is_dev) == new_mode,
{
    reveal_strlit("APP_ENV_DEV");
    reveal_strlit("APP_ENV_PROD");
    reveal_strlit("=");
    let key = env_key(is_dev);
    let ls = match content {
        Some(c) => lines_of(c),
        None => Seq::<Seq<char>>::empty(),
    };
    let new_line = key + "="@ + new_mode;
    let x = lines_with(ls, key, new_line);
    match content {
        Some(c) => lemma_lines_no_newline(c),
        None => {},
    }
    assert(no_newline(new_line)) by {
        assert forall|k: int| 0 <= k < new_line.len() implies new_line[k] != '\n' by {
            if k >= key.len() + 1 {
                assert(new_line[k] == new_mode[k - key.len() - 1]);
            }
        }
    }
    let pred = |l: Seq<char>| sets_key(l, key);
    crate::corrections::lemma_first_match(ls, pred);
    assert forall|i: int| 0 <= i < x.len() implies no_newline(#[trigger] x[i]) by {
        if i < ls.len() && x[i] != new_line {
            assert(x[i] == ls[i]);
        }
    }
    lemma_lines_terminated(x);
    let z = x.map_values(|l: Seq<char>| strip_cr(l));
    assert(lines_of(terminated(x)) == z);
    lemma_mode_value_of_line(key, new_mode);
    let i = match first_match(ls, pred) {
        Some(i) => i,
        None => ls.len() as int,
    };
    assert(x[i] == new_line);
    assert(z[i] == new_line);
    assert forall|j: int| 0 <= j < i implies mode_value(#[trigger] z[j], key) is None by {
        assert(x[j] == ls[j]);
        assert(!pred(ls[j]));
        lemma_trimmed_strip_cr(ls[j]);
    }
    lemma_first_mode_value_at(z, key, i, new_mode);
}

} // verus!
