//! What is set up for what was asked for.

use bevy_kitty::config::{asset_root, plan_boot, KittyMode, Parts, Wishes};

const ALL: Parts = Parts {
    sprite: true,
    frame: true,
    text: true,
    ui: true,
    input: true,
};

fn wishes(mode: KittyMode) -> Wishes {
    Wishes {
        mode,
        text: true,
        ui: true,
        input: true,
    }
}

#[test]
fn the_sprite_pass_brings_text_and_interface() {
    let plan = plan_boot(wishes(KittyMode::default()), ALL);
    assert!(plan.sprite && plan.text && plan.ui && plan.input && plan.messages);
    assert!(!plan.frame && !plan.mode_missing);
    let quiet = Wishes {
        text: false,
        ui: false,
        ..wishes(KittyMode::Sprite)
    };
    let plan = plan_boot(quiet, ALL);
    assert!(plan.sprite && !plan.text && !plan.ui);
}

#[test]
fn frame_mode_runs_alone() {
    let plan = plan_boot(wishes(KittyMode::Frame), ALL);
    assert!(plan.frame && plan.input);
    assert!(!plan.sprite && !plan.text && !plan.ui);
}

#[test]
fn frame_mode_never_scales_its_target() {
    // Frame mode reads the target back expecting exactly the virtual size, so a scaled one
    // would silently corrupt every decoded frame.
    assert!(!KittyMode::Frame.scales_target());
    assert!(KittyMode::Sprite.scales_target());
}

#[test]
fn messages_are_registered_even_without_input() {
    let off = Wishes {
        input: false,
        ..wishes(KittyMode::Sprite)
    };
    let plan = plan_boot(off, ALL);
    assert!(plan.messages && !plan.input && !plan.input_missing);
}

#[test]
fn what_is_missing_is_complained_about() {
    let none = Parts {
        sprite: false,
        frame: false,
        text: false,
        ui: false,
        input: false,
    };
    let plan = plan_boot(wishes(KittyMode::Sprite), none);
    assert!(plan.mode_missing && plan.text_missing && plan.ui_missing && plan.input_missing);
    assert!(!plan.sprite && !plan.text && !plan.ui && !plan.input && !plan.messages);
    let only_sprite = Parts {
        sprite: true,
        ..none
    };
    assert!(plan_boot(wishes(KittyMode::Frame), only_sprite).mode_missing);
    assert!(!plan_boot(wishes(KittyMode::Sprite), only_sprite).mode_missing);
}

#[test]
fn the_asset_root_is_the_first_that_is_named() {
    let s = |t: &str| Some(t.to_string());
    assert_eq!(asset_root(s("a"), s("b")), ("a".to_string(), false));
    assert_eq!(asset_root(None, s("b")), ("b".to_string(), false));
    assert_eq!(asset_root(None, None), (".".to_string(), true));
}
