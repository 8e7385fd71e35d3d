use microcount::workspace::{ConvertStatus, ImageMetadata, Model, TiffInfo, Workspace};
use microcount::pages::{
    HomeController, HomePage, NavigatorBar, RegisterMessage, RegisterPage, SelectImagesMessage,
    SelectImagesPage,
};

#[test]
fn image_id_is_the_file_stem() {
    let img = ImageMetadata::new("/data/slides/run_7.tiff", "/ws");
    assert_eq!(img.id(), "run_7");
    assert_eq!(img.src_fn(), "/data/slides/run_7.tiff");
    assert_eq!(img.ws_dir(), "/ws");
    let plain = ImageMetadata::new("plain", "/ws");
    assert_eq!(plain.id(), "plain");
    let dotted = ImageMetadata::new("a/b/archive.tar.gz", "/ws");
    assert_eq!(dotted.id(), "archive.tar");
}

#[test]
fn image_id_edge_paths_follow_the_platform_rule() {
    // Each expectation equals std::path::Path::file_stem's answer
    // (unwrapped to "" when there is none) for the same input.
    for (path, stem) in [
        ("a/", "a"),
        ("a//", "a"),
        (".", ""),
        ("..", ""),
        ("a/..", ""),
        ("a/.", "a"),
        ("x/.bashrc", ".bashrc"),
        ("dir/...", ".."),
        ("x.", "x"),
        ("/", ""),
        ("", ""),
    ] {
        let img = ImageMetadata::new(path, "/ws");
        assert_eq!(img.id(), stem, "stem of {:?}", path);
        assert_eq!(
            img.id(),
            std::path::Path::new(path)
                .file_stem()
                .and_then(|s| s.to_str())
                .unwrap_or(""),
            "std disagrees on {:?}",
            path
        );
    }
}

#[test]
fn conv_path_is_assembled_from_parts() {
    let img = ImageMetadata::new("/data/run_7.tiff", "/ws");
    assert_eq!(img.conv_fn(), "/ws/ws_converted/run_7_conv.tiff");
}

#[test]
fn set_metadata_assigns_channels() {
    let mut img = ImageMetadata::new("x.tiff", "/ws");
    let info = TiffInfo { dimensions: (640, 480), n_channels: 3 };
    img.set_metadata(&info);
    assert_eq!(img.size, (640, 480));
    assert_eq!(img.channel_count, 3);
    assert_eq!(img.registration_channel, 0);
    assert_eq!(img.cell_channel, 1);
    assert_eq!(img.comarker_channel, 2);
    let single = TiffInfo { dimensions: (10, 10), n_channels: 0 };
    img.set_metadata(&single);
    assert_eq!(img.cell_channel, 0);
    assert_eq!(img.comarker_channel, 0);
}

#[test]
fn convert_status_labels() {
    assert_eq!(ConvertStatus::Unconverted.to_str(), "Unconverted");
    assert_eq!(ConvertStatus::Converting.to_str(), "Converting");
    assert_eq!(ConvertStatus::Converted.to_str(), "Concerted");
}

#[test]
fn workspace_registers_and_finds_images() {
    let mut ws = Workspace::new(String::from("/ws"));
    assert_eq!(ws.n_images(), 0);
    ws.add_image(ImageMetadata::new("/a/first.tiff", "/ws"));
    ws.add_image(ImageMetadata::new("/a/second.tiff", "/ws"));
    assert_eq!(ws.n_images(), 2);
    let hit = ws.get_image("second");
    assert!(hit.is_some());
    assert_eq!(hit.unwrap().src_fn(), "/a/second.tiff");
    assert!(ws.get_image("third").is_none());
}

#[test]
fn model_starts_without_workspace() {
    let m = Model::new();
    assert!(m.workspace.is_none());
}

#[test]
fn register_page_steps_by_ten_and_five() {
    let mut page = RegisterPage::new();
    assert_eq!(page.value, 0);
    page.update(RegisterMessage::Increment);
    page.update(RegisterMessage::Increment);
    page.update(RegisterMessage::Decrement);
    assert_eq!(page.value, 15);
}

#[test]
fn select_images_page_steps_by_one() {
    let mut page = SelectImagesPage::new();
    page.update(SelectImagesMessage::Increment);
    page.update(SelectImagesMessage::Decrement);
    page.update(SelectImagesMessage::Decrement);
    assert_eq!(page.value, -1);
}

#[test]
fn home_controller_ages() {
    let mut model = Model::new();
    let mut ctl = HomeController::new();
    assert_eq!(ctl.name, "Arthur");
    assert_eq!(ctl.age, 42);
    ctl.increment_age(&mut model);
    assert_eq!(ctl.age, 43);
    let _home = HomePage::new();
    let _bar = NavigatorBar::new();
}
