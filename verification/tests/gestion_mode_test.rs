//! Execution modes: registry rules and the active mode kept in `.env`.

use visugps2::gestion_mode::{
    active_mode_in, check_selectable, create_mode_entry, env_with_active_mode, initial_env_text,
    initial_mode_config, lines, remove_mode_entry, update_mode_entry, ModeConfig, ModeInfo,
};

/// Local time at which the changes below are made.
const NOW: &str = "2026-03-04 05:06:07";

fn config_with(names: &[&str]) -> ModeConfig {
    ModeConfig {
        modes: names
            .iter()
            .map(|n| ModeInfo {
                nom: n.to_string(),
                descrition: format!("mode {n}"),
                creation: "2026-01-01 00:00:00".to_string(),
                revision: None,
            })
            .collect(),
    }
}

#[test]
fn initial_registry_holds_the_operational_mode() {
    let c = initial_mode_config();
    assert_eq!(c.modes.len(), 1);
    assert_eq!(c.modes[0].nom, "OPE");
    assert_eq!(c.modes[0].descrition, "Mode opérationnel par défaut");
    assert_eq!(c.modes[0].creation, "2026-05-15 15:12:28");
    assert_eq!(c.modes[0].revision, None);
}

#[test]
fn creating_a_mode() {
    let mut c = config_with(&["OPE", "EVAL_A"]);
    assert_eq!(
        create_mode_entry(&mut c, "TEST".to_string(), "d".to_string(), NOW.to_string()),
        Err("Le nom du mode doit commencer par 'EVAL_'".to_string())
    );
    assert_eq!(
        create_mode_entry(&mut c, "EVAL_A".to_string(), "d".to_string(), NOW.to_string()),
        Err("Un mode d'exécution avec ce nom existe déjà".to_string())
    );
    assert_eq!(c.modes.len(), 2);
    assert_eq!(create_mode_entry(&mut c, "EVAL_B".to_string(), "essai".to_string(), NOW.to_string()), Ok(()));
    assert_eq!(c.modes.len(), 3);
    assert_eq!(c.modes[2].nom, "EVAL_B");
    assert_eq!(c.modes[2].descrition, "essai");
    assert_eq!(c.modes[2].creation, NOW);
    assert_eq!(c.modes[2].revision, None);
}

#[test]
fn updating_a_mode() {
    let mut c = config_with(&["OPE", "EVAL_A", "EVAL_B"]);
    assert_eq!(
        update_mode_entry(&mut c, "OPE", "EVAL_X".to_string(), "d".to_string(), NOW.to_string()),
        Err("Le mode OPE ne peut pas être modifié".to_string())
    );
    assert_eq!(
        update_mode_entry(&mut c, "EVAL_A", "X".to_string(), "d".to_string(), NOW.to_string()),
        Err("Le nom du mode doit commencer par 'EVAL_'".to_string())
    );
    assert_eq!(
        update_mode_entry(&mut c, "EVAL_Z", "EVAL_Y".to_string(), "d".to_string(), NOW.to_string()),
        Err("Mode d'exécution introuvable".to_string())
    );
    assert_eq!(
        update_mode_entry(&mut c, "EVAL_A", "EVAL_B".to_string(), "d".to_string(), NOW.to_string()),
        Err("Un mode d'exécution avec ce nouveau nom existe déjà".to_string())
    );
    assert_eq!(update_mode_entry(&mut c, "EVAL_A", "EVAL_A".to_string(), "nouvelle".to_string(), NOW.to_string()), Ok(false));
    assert_eq!(c.modes[1].descrition, "nouvelle");
    assert_eq!(c.modes[1].revision.as_deref(), Some(NOW));
    assert_eq!(c.modes[1].creation, "2026-01-01 00:00:00");
    assert_eq!(update_mode_entry(&mut c, "EVAL_A", "EVAL_C".to_string(), "x".to_string(), NOW.to_string()), Ok(true));
    assert_eq!(c.modes[1].nom, "EVAL_C");
    assert_eq!(c.modes.len(), 3);
}

#[test]
fn deleting_a_mode() {
    let mut c = config_with(&["OPE", "EVAL_A", "EVAL_B"]);
    assert_eq!(remove_mode_entry(&mut c, "OPE", "EVAL_A"), Err("Le mode OPE ne peut pas être supprimé".to_string()));
    assert_eq!(
        remove_mode_entry(&mut c, "EVAL_A", "EVAL_A"),
        Err("Impossible de supprimer le mode d'exécution actif".to_string())
    );
    assert_eq!(remove_mode_entry(&mut c, "EVAL_Z", "OPE"), Err("Mode d'exécution introuvable".to_string()));
    assert_eq!(c.modes.len(), 3);
    assert_eq!(remove_mode_entry(&mut c, "EVAL_A", "OPE"), Ok(()));
    let names: Vec<&str> = c.modes.iter().map(|m| m.nom.as_str()).collect();
    assert_eq!(names, vec!["OPE", "EVAL_B"]);
}

#[test]
fn selecting_a_mode() {
    let c = config_with(&["OPE", "EVAL_A"]);
    assert_eq!(check_selectable(&c, "EVAL_A"), Ok(()));
    assert_eq!(check_selectable(&c, "EVAL_B"), Err("Mode d'exécution inconnu".to_string()));
}

#[test]
fn reading_the_active_mode() {
    let env = "# modes\nAPP_ENV_DEV = x\n  APP_ENV_DEV=\"EVAL_A\"  \r\nAPP_ENV_PROD='EVAL_B'\n";
    assert_eq!(active_mode_in(env, true), "EVAL_A", "a line with a space before '=' does not set the key");
    assert_eq!(active_mode_in(env, false), "EVAL_B");
    assert_eq!(active_mode_in("APP_ENV_DEV=\"\"\nAPP_ENV_DEV=EVAL_C\n", true), "EVAL_C", "an empty value is skipped");
    assert_eq!(active_mode_in("", true), "OPE");
    assert_eq!(active_mode_in(&initial_env_text(), true), "OPE");
    assert_eq!(active_mode_in(&initial_env_text(), false), "OPE");
    assert_eq!(initial_env_text(), "APP_ENV_DEV=OPE\nAPP_ENV_PROD=OPE\n");
}

#[test]
fn writing_the_active_mode() {
    assert_eq!(env_with_active_mode(None, true, "EVAL_A"), "APP_ENV_DEV=EVAL_A\n");
    assert_eq!(
        env_with_active_mode(Some("APP_ENV_DEV=OPE\r\nAPP_ENV_PROD=OPE"), false, "EVAL_B"),
        "APP_ENV_DEV=OPE\nAPP_ENV_PROD=EVAL_B\n"
    );
    assert_eq!(env_with_active_mode(Some("X=1\n"), true, "EVAL_C"), "X=1\nAPP_ENV_DEV=EVAL_C\n");
    assert_eq!(
        env_with_active_mode(Some("  APP_ENV_DEV=\"\"\nAPP_ENV_DEV=OPE\n"), true, "EVAL_D"),
        "APP_ENV_DEV=EVAL_D\nAPP_ENV_DEV=OPE\n",
        "the first line setting the key is replaced"
    );
}

#[test]
fn written_mode_is_read_back() {
    for content in [None, Some("APP_ENV_DEV=\"EVAL_A\"\r\nAPP_ENV_PROD=OPE\n"), Some("\n\nX=1")] {
        for is_dev in [true, false] {
            let written = env_with_active_mode(content, is_dev, "EVAL_Z");
            assert_eq!(active_mode_in(&written, is_dev), "EVAL_Z");
        }
    }
}

#[test]
fn lines_of_a_text() {
    assert_eq!(lines("a\r\nb\n"), vec!["a", "b"]);
    assert_eq!(lines("a\n\nb"), vec!["a", "", "b"]);
    assert_eq!(lines("a\r"), vec!["a\r"]);
    assert!(lines("").is_empty());
    assert_eq!(lines("\n"), vec![""]);
}
