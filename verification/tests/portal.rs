use xdg_desktop_portal_froggy::Action;
use xdg_desktop_portal_froggy::CallError;
use xdg_desktop_portal_froggy::Config;
use xdg_desktop_portal_froggy::DialogStorage;
use xdg_desktop_portal_froggy::FileChooserWin;
use xdg_desktop_portal_froggy::OptValue;
use xdg_desktop_portal_froggy::PickerState;
use xdg_desktop_portal_froggy::RePayload;
use xdg_desktop_portal_froggy::Registry;
use xdg_desktop_portal_froggy::RegistryError;
use xdg_desktop_portal_froggy::RequestPortalFacade;
use xdg_desktop_portal_froggy::WinEvent;
use xdg_desktop_portal_froggy::cfg_file;
use xdg_desktop_portal_froggy::file_uri_of;
use xdg_desktop_portal_froggy::make_file_portal;
use xdg_desktop_portal_froggy::make_request_path;
use xdg_desktop_portal_froggy::sanitize_sender;
use xdg_desktop_portal_froggy::tick;

fn plain_config() -> Config {
    Config {
        file_dia_storage: DialogStorage { pinned_folders: Vec::new(), show_hidden: false },
    }
}

fn opts_with_token(tok: &str) -> Vec<(String, OptValue)> {
    vec![(String::from("handle_token"), OptValue::Str(String::from(tok)))]
}

#[test]
fn picked_files_encode_to_code_zero_with_file_uris() {
    let payload = RePayload::PickedFiles(vec![String::from("/a/b.txt")]).encode();
    assert_eq!(payload.code, 0);
    assert_eq!(payload.results.len(), 1);
    assert_eq!(payload.results[0].0, "uris");
    assert_eq!(payload.results[0].1, vec![String::from("file:///a/b.txt")]);
}

#[test]
fn cancellation_encodes_to_code_one_with_empty_results() {
    let payload = RePayload::UserCancel.encode();
    assert_eq!(payload.code, 1);
    assert!(payload.results.is_empty());
}

#[test]
fn file_uri_prefixes_the_scheme() {
    assert_eq!(file_uri_of("/home/user/song.flac"), "file:///home/user/song.flac");
}

#[test]
fn sanitize_strips_prefix_and_replaces_dots() {
    assert_eq!(sanitize_sender(":1.42"), "1_42");
    assert_eq!(sanitize_sender("no.prefix"), "no_prefix");
    assert_eq!(sanitize_sender(""), "");
}

#[test]
fn request_path_is_derived_from_sender_and_token() {
    let p = make_request_path(":1.42", "tok7").unwrap();
    assert_eq!(p, "/org/freedesktop/portal/desktop/request/1_42/tok7");
}

#[test]
fn request_path_refuses_illegal_elements() {
    assert!(make_request_path(":1.42", "bad/slash").is_none());
    assert!(make_request_path(":1.42", "").is_none());
    assert!(make_request_path(":1.42", "spa ce").is_none());
}

#[test]
fn open_file_registers_and_queues_the_request() {
    let mut portal = make_file_portal();
    let path = portal
        .open_file(":1.42", "Pick a file", &opts_with_token("tok1"))
        .unwrap();
    assert_eq!(path, "/org/freedesktop/portal/desktop/request/1_42/tok1");
    assert!(portal.registry.is_registered(&path));
    assert_eq!(portal.queue.len(), 1);
}

#[test]
fn repeated_token_is_a_registration_failure() {
    let mut portal = make_file_portal();
    let path = portal
        .open_file(":1.42", "first", &opts_with_token("tok1"))
        .unwrap();
    let second = portal.open_file(":1.42", "second", &opts_with_token("tok1"));
    assert_eq!(second, Err(CallError::RegistrationFailure));
    assert!(portal.registry.is_registered(&path));
    assert_eq!(portal.queue.len(), 1);
}

#[test]
fn missing_token_is_rejected_without_any_mutation() {
    let mut portal = make_file_portal();
    let r = portal.open_file(":1.42", "no token", &Vec::new());
    assert_eq!(r, Err(CallError::MalformedRequest));
    assert_eq!(portal.queue.len(), 0);
    let would_be = make_request_path(":1.42", "tok1").unwrap();
    assert!(!portal.registry.is_registered(&would_be));
}

#[test]
fn non_string_token_is_rejected() {
    let mut portal = make_file_portal();
    let opts = vec![(String::from("handle_token"), OptValue::Other)];
    let r = portal.open_file(":1.42", "bad token", &opts);
    assert_eq!(r, Err(CallError::MalformedRequest));
    assert_eq!(portal.queue.len(), 0);
}

#[test]
fn token_with_illegal_characters_is_malformed() {
    let mut portal = make_file_portal();
    let r = portal.open_file(":1.42", "bad token", &opts_with_token("../escape"));
    assert_eq!(r, Err(CallError::MalformedRequest));
    assert_eq!(portal.queue.len(), 0);
}

#[test]
fn registry_reports_duplicates_and_absentees() {
    let mut reg = Registry::new();
    let p = String::from("/org/freedesktop/portal/desktop/request/1_1/a");
    assert_eq!(reg.register(p.clone()), Ok(()));
    assert_eq!(reg.register(p.clone()), Err(RegistryError::AlreadyRegistered));
    assert_eq!(reg.deregister(&p), Ok(()));
    assert_eq!(reg.deregister(&p), Err(RegistryError::NotFound));
}

#[test]
fn idle_tick_sleeps_exactly_once() {
    let mut portal = make_file_portal();
    let mut windows: Vec<FileChooserWin> = Vec::new();
    let mut cfg = plain_config();
    let acts = tick(&mut portal, &mut windows, &mut cfg, &Vec::new());
    assert_eq!(acts.len(), 1);
    assert!(matches!(acts[0], Action::Sleep));
}

#[test]
fn active_tick_does_not_sleep() {
    let mut portal = make_file_portal();
    let mut windows: Vec<FileChooserWin> = Vec::new();
    let mut cfg = plain_config();
    portal
        .open_file(":1.9", "busy", &opts_with_token("t"))
        .unwrap();
    let acts = tick(&mut portal, &mut windows, &mut cfg, &Vec::new());
    assert!(acts.iter().all(|a| !matches!(a, Action::Sleep)));
    assert_eq!(windows.len(), 1);
}

#[test]
fn tick_spawns_a_picking_window_per_queued_request() {
    let mut portal = make_file_portal();
    let mut windows: Vec<FileChooserWin> = Vec::new();
    let mut cfg = plain_config();
    let path = portal
        .open_file(":1.5", "Choose", &opts_with_token("w1"))
        .unwrap();
    tick(&mut portal, &mut windows, &mut cfg, &Vec::new());
    assert_eq!(windows.len(), 1);
    assert_eq!(windows[0].req.title, "Choose");
    assert_eq!(windows[0].req.path, path);
    assert_eq!(windows[0].state, PickerState::Picking);
    assert_eq!(portal.queue.len(), 0);
}

#[test]
fn picked_window_emits_once_before_deregistration() {
    let mut portal = make_file_portal();
    let mut windows: Vec<FileChooserWin> = Vec::new();
    let mut cfg = plain_config();
    let path = portal
        .open_file(":1.5", "Choose", &opts_with_token("w1"))
        .unwrap();
    tick(&mut portal, &mut windows, &mut cfg, &Vec::new());
    let events = vec![WinEvent::PickerPicked(String::from("/music/frog.ogg"))];
    let acts = tick(&mut portal, &mut windows, &mut cfg, &events);
    let emit_positions: Vec<usize> = acts
        .iter()
        .enumerate()
        .filter(|(_, a)| matches!(a, Action::Emit(p, _) if *p == path))
        .map(|(k, _)| k)
        .collect();
    let dereg_positions: Vec<usize> = acts
        .iter()
        .enumerate()
        .filter(|(_, a)| matches!(a, Action::Deregister(p) if *p == path))
        .map(|(k, _)| k)
        .collect();
    assert_eq!(emit_positions.len(), 1);
    assert_eq!(dereg_positions.len(), 1);
    assert!(emit_positions[0] < dereg_positions[0]);
    match &acts[emit_positions[0]] {
        Action::Emit(_, payload) => {
            assert_eq!(payload.code, 0);
            assert_eq!(payload.results[0].0, "uris");
            assert_eq!(payload.results[0].1, vec![String::from("file:///music/frog.ogg")]);
        },
        _ => panic!("expected an emission"),
    }
    assert!(windows.is_empty());
    assert!(!portal.registry.is_registered(&path));
}

#[test]
fn cancelled_window_emits_the_cancel_code() {
    let mut portal = make_file_portal();
    let mut windows: Vec<FileChooserWin> = Vec::new();
    let mut cfg = plain_config();
    let path = portal
        .open_file(":1.5", "Choose", &opts_with_token("w1"))
        .unwrap();
    tick(&mut portal, &mut windows, &mut cfg, &Vec::new());
    let acts = tick(&mut portal, &mut windows, &mut cfg, &vec![WinEvent::PickerCancelled]);
    let emits: Vec<&Action> = acts
        .iter()
        .filter(|a| matches!(a, Action::Emit(_, _)))
        .collect();
    assert_eq!(emits.len(), 1);
    match emits[0] {
        Action::Emit(p, payload) => {
            assert_eq!(*p, path);
            assert_eq!(payload.code, 1);
            assert!(payload.results.is_empty());
        },
        _ => panic!("expected an emission"),
    }
    assert!(windows.is_empty());
    assert!(!portal.registry.is_registered(&path));
}

#[test]
fn os_closed_window_is_torn_down_without_a_response() {
    let mut portal = make_file_portal();
    let mut windows: Vec<FileChooserWin> = Vec::new();
    let mut cfg = plain_config();
    let path = portal
        .open_file(":1.5", "Choose", &opts_with_token("w1"))
        .unwrap();
    tick(&mut portal, &mut windows, &mut cfg, &Vec::new());
    let acts = tick(&mut portal, &mut windows, &mut cfg, &vec![WinEvent::OsClose]);
    assert!(acts.iter().all(|a| !matches!(a, Action::Emit(_, _))));
    assert_eq!(
        acts.iter()
            .filter(|a| matches!(a, Action::Deregister(p) if *p == path))
            .count(),
        1
    );
    assert!(windows.is_empty());
    assert!(!portal.registry.is_registered(&path));
}

#[test]
fn two_pending_requests_are_independent() {
    let mut portal = make_file_portal();
    let mut windows: Vec<FileChooserWin> = Vec::new();
    let mut cfg = plain_config();
    let p1 = portal
        .open_file(":1.5", "first", &opts_with_token("a"))
        .unwrap();
    let p2 = portal
        .open_file(":1.5", "second", &opts_with_token("b"))
        .unwrap();
    assert_ne!(p1, p2);
    tick(&mut portal, &mut windows, &mut cfg, &Vec::new());
    assert_eq!(windows.len(), 2);
    let events = vec![WinEvent::PickerPicked(String::from("/tmp/x")), WinEvent::StillOpen];
    let acts = tick(&mut portal, &mut windows, &mut cfg, &events);
    assert_eq!(windows.len(), 1);
    assert_eq!(windows[0].req.path, p2);
    assert_eq!(windows[0].state, PickerState::Picking);
    assert!(!portal.registry.is_registered(&p1));
    assert!(portal.registry.is_registered(&p2));
    assert!(acts.iter().all(|a| !matches!(a, Action::Emit(p, _) if *p == p2)));
    assert!(acts.iter().all(|a| !matches!(a, Action::Deregister(p) if *p == p2)));
}

#[test]
fn teardown_persists_the_windows_picker_state() {
    let mut portal = make_file_portal();
    let mut windows: Vec<FileChooserWin> = Vec::new();
    let mut cfg = plain_config();
    portal
        .open_file(":1.5", "Choose", &opts_with_token("w1"))
        .unwrap();
    tick(&mut portal, &mut windows, &mut cfg, &Vec::new());
    windows[0].storage.show_hidden = true;
    windows[0]
        .storage
        .pinned_folders
        .push(String::from("/home/user/music"));
    let acts = tick(&mut portal, &mut windows, &mut cfg, &vec![WinEvent::PickerCancelled]);
    assert!(cfg.file_dia_storage.show_hidden);
    assert_eq!(cfg.file_dia_storage.pinned_folders, vec![String::from("/home/user/music")]);
    let saves: Vec<&Action> = acts
        .iter()
        .filter(|a| matches!(a, Action::SaveConfig(_)))
        .collect();
    assert_eq!(saves.len(), 1);
    match saves[0] {
        Action::SaveConfig(saved) => {
            assert!(saved.file_dia_storage.show_hidden);
            assert_eq!(
                saved.file_dia_storage.pinned_folders,
                vec![String::from("/home/user/music")]
            );
        },
        _ => panic!("expected a flush"),
    }
}

#[test]
fn loading_a_parsed_state_returns_it_unchanged() {
    let cfg = Config {
        file_dia_storage: DialogStorage {
            pinned_folders: vec![String::from("/srv/ponds")],
            show_hidden: true,
        },
    };
    let loaded = Config::load_or_default(Some(cfg));
    assert!(loaded.file_dia_storage.show_hidden);
    assert_eq!(loaded.file_dia_storage.pinned_folders, vec![String::from("/srv/ponds")]);
}

#[test]
fn load_failure_falls_back_to_the_default_state() {
    let loaded = Config::load_or_default(None);
    assert!(!loaded.file_dia_storage.show_hidden);
    assert!(loaded.file_dia_storage.pinned_folders.is_empty());
}

#[test]
fn cfg_file_lies_under_the_service_directory() {
    if let Some(f) = cfg_file() {
        assert!(f.ends_with("/xdg-desktop-portal-froggy/config.ron"));
    }
}

#[test]
fn close_on_the_request_object_is_accepted() {
    let facade = RequestPortalFacade;
    facade.close();
}

#[test]
fn queue_hands_requests_out_in_arrival_order() {
    let mut portal = make_file_portal();
    portal
        .open_file(":1.5", "first", &opts_with_token("a"))
        .unwrap();
    portal
        .open_file(":1.5", "second", &opts_with_token("b"))
        .unwrap();
    let first = portal.queue.try_recv().unwrap();
    let second = portal.queue.try_recv().unwrap();
    assert_eq!(first.title, "first");
    assert_eq!(second.title, "second");
    assert!(portal.queue.try_recv().is_none());
}
