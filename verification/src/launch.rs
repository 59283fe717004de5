//! Starting and ending: the command line, the render mode, and when pictures are taken.

use vstd::prelude::*;

use crate::text::{
    chars_of, float_text, is_float, parse_u64, parsed_int, pattern_at, occurs_at, pieces_from,
    same, split, strings_view,
};

verus! {

// ---------- the command line ----------

/// What the command line asks for. Numbers that need not be whole are kept as text.
#[derive(Debug)]
pub struct Launch {
    pub globe_alt: Option<String>,
    pub globe_view: Option<(String, String, Option<String>)>,
    pub map_path: Option<String>,
    pub screenshot: Option<String>,
    pub render_image: Option<String>,
    pub render_globe: bool,
    pub selftest_ui: bool,
    pub frames: Option<u32>,
    pub zoom: Option<String>,
}

/// What a `Launch` stands for.
pub struct LaunchView {
    pub globe_alt: Option<Seq<char>>,
    pub globe_view: Option<(Seq<char>, Seq<char>, Option<Seq<char>>)>,
    pub map_path: Option<Seq<char>>,
    pub screenshot: Option<Seq<char>>,
    pub render_image: Option<Seq<char>>,
    pub render_globe: bool,
    pub selftest_ui: bool,
    pub frames: Option<u32>,
    pub zoom: Option<Seq<char>>,
}

/// The text that may be there.
pub open spec fn opt_text(s: Option<String>) -> Option<Seq<char>> {
    match s {
        Some(t) => Some(t@),
        None => None,
    }
}

impl View for Launch {
    type V = LaunchView;

    open spec fn view(&self) -> LaunchView {
        LaunchView {
            globe_alt: opt_text(self.globe_alt),
            globe_view: match self.globe_view {
                Some((a, b, c)) => Some((a@, b@, opt_text(c))),
                None => None,
            },
            map_path: opt_text(self.map_path),
            screenshot: opt_text(self.screenshot),
            render_image: opt_text(self.render_image),
            render_globe: self.render_globe,
            selftest_ui: self.selftest_ui,
            frames: self.frames,
            zoom: opt_text(self.zoom),
        }
    }
}

impl LaunchView {
    /// Nothing is asked for.
    pub open spec fn empty() -> LaunchView {
        LaunchView {
            globe_alt: None,
            globe_view: None,
            map_path: None,
            screenshot: None,
            render_image: None,
            render_globe: false,
            selftest_ui: false,
            frames: None,
            zoom: None,
        }
    }
}

/// A number as text, where it is one.
pub open spec fn number(s: Seq<char>) -> Option<Seq<char>> {
    if is_float(s) {
        Some(s)
    } else {
        None
    }
}

/// The first `n` pieces that are numbers.
pub open spec fn numbers(pieces: Seq<Seq<char>>, n: int) -> Seq<Seq<char>>
    decreases n,
{
    if n <= 0 {
        Seq::empty()
    } else if is_float(pieces[n - 1]) {
        numbers(pieces, n - 1).push(pieces[n - 1])
    } else {
        numbers(pieces, n - 1)
    }
}

/// The view of the globe that numbers with commas between them stand for: latitude, longitude and
/// perhaps a height. What is no number is passed over.
pub open spec fn view_of(s: Seq<char>) -> Option<(Seq<char>, Seq<char>, Option<Seq<char>>)> {
    let pieces = pieces_from(s, ',', 0);
    let p = numbers(pieces, pieces.len() as int);
    if p.len() >= 2 {
        Some(
            (
                p[0],
                p[1],
                if p.len() >= 3 {
                    Some(p[2])
                } else {
                    None
                },
            ),
        )
    } else {
        None
    }
}

/// A number of frames, where text is one.
pub open spec fn frame_count(s: Seq<char>) -> Option<u32> {
    match parsed_int(s, 0, u32::MAX as int) {
        Some(n) => Some(n as u32),
        None => None,
    }
}

/// What is asked for after an option with the value behind it.
pub open spec fn with_value(l: LaunchView, name: Seq<char>, v: Seq<char>) -> LaunchView {
    if name == "--map"@ {
        LaunchView { map_path: Some(v), ..l }
    } else if name == "--screenshot"@ {
        LaunchView { screenshot: Some(v), ..l }
    } else if name == "--render-image"@ {
        LaunchView { render_image: Some(v), ..l }
    } else if name == "--frames"@ {
        LaunchView { frames: frame_count(v), ..l }
    } else if name == "--globe-alt"@ {
        LaunchView { globe_alt: number(v), ..l }
    } else if name == "--globe-view"@ {
        match view_of(v) {
            Some(view) => LaunchView { globe_view: Some(view), ..l },
            None => l,
        }
    } else {
        LaunchView { zoom: number(v), ..l }
    }
}

/// Whether an option takes the argument behind it.
pub open spec fn takes_value(name: Seq<char>) -> bool {
    name == "--map"@ || name == "--screenshot"@ || name == "--render-image"@ || name == "--frames"@
        || name == "--globe-alt"@ || name == "--globe-view"@ || name == "--zoom"@
}

/// What is asked for with a picture, of the given name where none is named yet.
pub open spec fn with_picture(l: LaunchView, name: Seq<char>) -> LaunchView {
    if l.render_image is None {
        LaunchView { render_image: Some(name), ..l }
    } else {
        l
    }
}

/// What the arguments from index `i` on ask for, after what was asked for before. What is no
/// option is passed over. An option that takes a value is passed over where it is the last
/// argument.
pub open spec fn parsed(args: Seq<Seq<char>>, i: int, l: LaunchView) -> LaunchView
    decreases args.len() - i,
{
    if i < 0 || i >= args.len() {
        l
    } else {
        let a = args[i];
        if takes_value(a) {
            if i + 1 < args.len() {
                parsed(args, i + 2, with_value(l, a, args[i + 1]))
            } else {
                l
            }
        } else if a == "--selftest-ui"@ {
            parsed(
                args,
                i + 1,
                with_picture(LaunchView { selftest_ui: true, ..l }, "/tmp/selftest_ui.png"@),
            )
        } else if a == "--render-globe"@ {
            let on = LaunchView { render_globe: true, ..l };
            if i + 1 < args.len() && !occurs_at(args[i + 1], "--"@, 0) {
                parsed(args, i + 2, LaunchView { render_image: Some(args[i + 1]), ..on })
            } else {
                parsed(args, i + 1, with_picture(on, "/tmp/globe.png"@))
            }
        } else {
            parsed(args, i + 1, l)
        }
    }
}

fn number_of(s: &str) -> (r: Option<String>)
    ensures
        opt_text(r) == number(s@),
{
    if float_text(s) {
        Some(s.to_owned())
    } else {
        None
    }
}

fn frames_of(s: &str) -> (r: Option<u32>)
    ensures
        r == frame_count(s@),
{
    match parse_u64(s) {
        Some(n) => if n <= u32::MAX as u64 {
            Some(n as u32)
        } else {
            None
        },
        None => None,
    }
}

fn view_from(s: &str) -> (r: Option<(String, String, Option<String>)>)
    ensures
        match view_of(s@) {
            None => r is None,
            Some((a, b, c)) => r is Some && r->Some_0.0@ == a && r->Some_0.1@ == b && opt_text(
                r->Some_0.2,
            ) == c,
        },
{
    let pieces: Vec<String> = split(s, ',');
    let ghost all = pieces_from(s@, ',', 0);
    let mut found: Vec<String> = Vec::new();
    let mut i: usize = 0;
    while i < pieces.len()
        invariant
            i <= pieces@.len(),
            strings_view(pieces@) == all,
            all.len() == pieces@.len(),
            strings_view(found@) =~= numbers(all, i as int),
        decreases pieces@.len() - i,
    {
        assert(all[i as int] == pieces@[i as int]@);
        if float_text(pieces[i].as_str()) {
            let ghost before = found@;
            let piece: String = pieces[i].clone();
            let ghost view = piece@;
            found.push(piece);
            assert(strings_view(found@) =~= strings_view(before).push(view));
        }
        i = i + 1;
    }
    let n: usize = found.len();
    assert(n == numbers(all, all.len() as int).len());
    if n < 2 {
        return None;
    }
    proof {
        let v = strings_view(found@);
        assert(v[0] == found@[0]@);
        assert(v[1] == found@[1]@);
        if n >= 3 {
            assert(v[2] == found@[2]@);
        }
    }
    let alt: Option<String> = if n >= 3 { Some(found[2].clone()) } else { None };
    Some((found[0].clone(), found[1].clone(), alt))
}

impl Launch {
    /// Nothing is asked for.
    pub fn new() -> (r: Self)
        ensures
            r@ == LaunchView::empty(),
    {
        Launch {
            globe_alt: None,
            globe_view: None,
            map_path: None,
            screenshot: None,
            render_image: None,
            render_globe: false,
            selftest_ui: false,
            frames: None,
            zoom: None,
        }
    }

    fn take_value(&mut self, name: &str, v: &str)
        requires
            takes_value(name@),
        ensures
            final(self)@ == with_value(old(self)@, name@, v@),
    {
        if same(name, "--map") {
            self.map_path = Some(v.to_owned());
        } else if same(name, "--screenshot") {
            self.screenshot = Some(v.to_owned());
        } else if same(name, "--render-image") {
            self.render_image = Some(v.to_owned());
        } else if same(name, "--frames") {
            self.frames = frames_of(v);
        } else if same(name, "--globe-alt") {
            self.globe_alt = number_of(v);
        } else if same(name, "--globe-view") {
            match view_from(v) {
                Some(view) => {
                    self.globe_view = Some(view);
                },
                None => {},
            }
        } else {
            self.zoom = number_of(v);
        }
    }

    fn name_picture(&mut self, name: &str)
        ensures
            final(self)@ == with_picture(old(self)@, name@),
    {
        if self.render_image.is_none() {
            self.render_image = Some(name.to_owned());
        }
    }
}

fn is_valued(name: &str) -> (r: bool)
    ensures
        r == takes_value(name@),
{
    same(name, "--map") || same(name, "--screenshot") || same(name, "--render-image") || same(
        name,
        "--frames",
    ) || same(name, "--globe-alt") || same(name, "--globe-view") || same(name, "--zoom")
}

fn is_option(s: &str) -> (r: bool)
    ensures
        r == occurs_at(s@, "--"@, 0),
{
    let cs: Vec<char> = chars_of(s);
    let dashes: Vec<char> = chars_of("--");
    pattern_at(&cs, &dashes, 0)
}

/// What the arguments behind the name of the program ask for.
pub fn parse_args(args: &[String]) -> (r: Launch)
    ensures
        r@ == parsed(strings_view(args@), 0, LaunchView::empty()),
{
    let ghost all = strings_view(args@);
    let mut launch: Launch = Launch::new();
    let n: usize = args.len();
    let mut i: usize = 0;
    while i < n
        invariant
            i <= n,
            n == args@.len(),
            all == strings_view(args@),
            parsed(all, 0, LaunchView::empty()) == parsed(all, i as int, launch@),
        decreases n - i,
    {
        proof {
            assert(all[i as int] == args@[i as int]@);
            if i + 1 < n {
                assert(all[i + 1] == args@[i + 1]@);
            }
        }
        let a: &str = args[i].as_str();
        if is_valued(a) {
            if i + 1 < n {
                launch.take_value(a, args[i + 1].as_str());
                i = i + 2;
            } else {
                i = i + 1;
            }
        } else if same(a, "--selftest-ui") {
            launch.selftest_ui = true;
            launch.name_picture("/tmp/selftest_ui.png");
            i = i + 1;
        } else if same(a, "--render-globe") {
            launch.render_globe = true;
            if i + 1 < n && !is_option(args[i + 1].as_str()) {
                launch.render_image = Some(args[i + 1].clone());
                i = i + 2;
            } else {
                launch.name_picture("/tmp/globe.png");
                i = i + 1;
            }
        } else {
            i = i + 1;
        }
    }
    launch
}

// ---------- modes and views ----------

/// How the program runs.
#[derive(Debug, Clone, Copy, PartialEq, Eq, Structural)]
pub enum RenderMode {
    /// In a window.
    Window,
    /// The map is drawn into a picture.
    ImageMap,
    /// The globe is drawn into a picture.
    ImageGlobe,
    /// The panels are drawn into a picture.
    Selftest,
}

/// What is shown.
#[derive(Debug, Clone, Copy, PartialEq, Eq, Structural, Hash)]
pub enum AppState {
    Globe,
    /// The map.
    Chart,
}

/// How the program runs.
pub open spec fn mode(l: LaunchView) -> RenderMode {
    if l.selftest_ui {
        RenderMode::Selftest
    } else if l.render_globe {
        RenderMode::ImageGlobe
    } else if l.render_image is Some {
        RenderMode::ImageMap
    } else {
        RenderMode::Window
    }
}

/// How the program runs.
pub fn mode_of(l: &Launch) -> (r: RenderMode)
    ensures
        r == mode(l@),
{
    if l.selftest_ui {
        RenderMode::Selftest
    } else if l.render_globe {
        RenderMode::ImageGlobe
    } else if l.render_image.is_some() {
        RenderMode::ImageMap
    } else {
        RenderMode::Window
    }
}

/// A mode that draws a picture has a name for it.
pub proof fn pictures_have_names(args: Seq<Seq<char>>)
    ensures
        mode(parsed(args, 0, LaunchView::empty())) != RenderMode::Window ==> parsed(
            args,
            0,
            LaunchView::empty(),
        ).render_image is Some,
{
    lemma_pictures_have_names(args, 0, LaunchView::empty());
}

proof fn lemma_pictures_have_names(args: Seq<Seq<char>>, i: int, l: LaunchView)
    requires
        l.selftest_ui || l.render_globe ==> l.render_image is Some,
    ensures
        ({
            let r = parsed(args, i, l);
            r.selftest_ui || r.render_globe ==> r.render_image is Some
        }),
    decreases args.len() - i,
{
    if 0 <= i < args.len() {
        let a = args[i];
        if takes_value(a) {
            if i + 1 < args.len() {
                lemma_pictures_have_names(args, i + 2, with_value(l, a, args[i + 1]));
            }
        } else if a == "--selftest-ui"@ {
            lemma_pictures_have_names(
                args,
                i + 1,
                with_picture(LaunchView { selftest_ui: true, ..l }, "/tmp/selftest_ui.png"@),
            );
        } else if a == "--render-globe"@ {
            let on = LaunchView { render_globe: true, ..l };
            if i + 1 < args.len() && !occurs_at(args[i + 1], "--"@, 0) {
                lemma_pictures_have_names(
                    args,
                    i + 2,
                    LaunchView { render_image: Some(args[i + 1]), ..on },
                );
            } else {
                lemma_pictures_have_names(args, i + 1, with_picture(on, "/tmp/globe.png"@));
            }
        } else {
            lemma_pictures_have_names(args, i + 1, l);
        }
    }
}

/// What is shown first: the map where it is drawn into a picture, or where an address in a window
/// asks for it; the globe otherwise.
pub open spec fn first_state(mode: RenderMode, linked: Option<AppState>) -> AppState {
    match mode {
        RenderMode::ImageMap => AppState::Chart,
        RenderMode::Window => match linked {
            Some(s) => s,
            None => AppState::Globe,
        },
        _ => AppState::Globe,
    }
}

/// What is shown first.
pub fn initial_state(mode: RenderMode, linked: Option<AppState>) -> (r: AppState)
    ensures
        r == first_state(mode, linked),
{
    match mode {
        RenderMode::ImageMap => AppState::Chart,
        RenderMode::Window => match linked {
            Some(s) => s,
            None => AppState::Globe,
        },
        _ => AppState::Globe,
    }
}

// ---------- the scene ----------

/// A picture that is drawn off the screen.
#[derive(Debug)]
pub struct Picture {
    pub path: String,
    pub width: u32,
    pub height: u32,
}

/// What the scene is made of.
#[derive(Debug)]
pub struct Scene {
    /// Whether units are put on the map.
    pub units: bool,
    /// Whether the map comes from tiles that are loaded as they are needed.
    pub live: bool,
    /// Whether there is a camera for the map, and whether it draws at first.
    pub flat_camera: Option<bool>,
    /// Whether there is a globe with its camera.
    pub globe: bool,
    /// The picture that is drawn off the screen.
    pub picture: Option<Picture>,
}

/// What a `Scene` stands for; a picture is its path, width and height.
pub struct SceneView {
    pub units: bool,
    pub live: bool,
    pub flat_camera: Option<bool>,
    pub globe: bool,
    pub picture: Option<(Seq<char>, u32, u32)>,
}

impl View for Scene {
    type V = SceneView;

    open spec fn view(&self) -> SceneView {
        SceneView {
            units: self.units,
            live: self.live,
            flat_camera: self.flat_camera,
            globe: self.globe,
            picture: match self.picture {
                Some(p) => Some((p.path@, p.width, p.height)),
                None => None,
            },
        }
    }
}

/// The scene that the arguments ask for. In a window the globe is drawn first; a picture shows
/// either the map or the globe; a picture of the panels shows neither and has a name of its own.
pub open spec fn scene(l: LaunchView) -> SceneView {
    let live = l.map_path is None;
    match mode(l) {
        RenderMode::Window => SceneView {
            units: true,
            live,
            flat_camera: Some(false),
            globe: true,
            picture: None,
        },
        RenderMode::ImageMap => SceneView {
            units: true,
            live,
            flat_camera: Some(true),
            globe: false,
            picture: Some((l.render_image->Some_0, 1600, 900)),
        },
        RenderMode::ImageGlobe => SceneView {
            units: true,
            live,
            flat_camera: None,
            globe: true,
            picture: Some((l.render_image->Some_0, 1600, 900)),
        },
        RenderMode::Selftest => SceneView {
            units: false,
            live: true,
            flat_camera: Some(true),
            globe: false,
            picture: Some(("/tmp/selftest_ui.png"@, 400, 300)),
        },
    }
}

/// The scene that the arguments ask for.
pub fn scene_of(l: &Launch) -> (r: Scene)
    requires
        mode(l@) == RenderMode::ImageGlobe ==> l@.render_image is Some,
    ensures
        r@ == scene(l@),
{
    let live: bool = l.map_path.is_none();
    let mode: RenderMode = mode_of(l);
    match mode {
        RenderMode::Window => Scene {
            units: true,
            live,
            flat_camera: Some(false),
            globe: true,
            picture: None,
        },
        RenderMode::Selftest => Scene {
            units: false,
            live: true,
            flat_camera: Some(true),
            globe: false,
            picture: Some(
                Picture { path: "/tmp/selftest_ui.png".to_owned(), width: 400, height: 300 },
            ),
        },
        _ => {
            let of_map: bool = match mode {
                RenderMode::ImageMap => true,
                _ => false,
            };
            let picture: Option<Picture> = match &l.render_image {
                Some(path) => Some(Picture { path: path.clone(), width: 1600, height: 900 }),
                None => None,
            };
            Scene {
                units: true,
                live,
                flat_camera: if of_map { Some(true) } else { None },
                globe: !of_map,
                picture,
            }
        },
    }
}

/// Arguments always ask for a scene that can be built, and exactly a scene outside a window is drawn
/// into a picture.
pub proof fn scenes_can_be_built(args: Seq<Seq<char>>)
    ensures
        ({
            let l = parsed(args, 0, LaunchView::empty());
            &&& mode(l) == RenderMode::ImageGlobe ==> l.render_image is Some
            &&& scene(l).picture is Some <==> mode(l) != RenderMode::Window
            &&& scene(l).globe || scene(l).flat_camera == Some(true)
        }),
{
    pictures_have_names(args);
}

// ---------- pictures and the end ----------

/// The frame in which the window is pictured.
pub const SHOT_FRAME: u32 = 120;

/// The number of frames after this one, and whether the window is pictured in it.
pub open spec fn shot_after(frames: u32, wanted: bool, done: bool) -> (u32, bool) {
    if wanted && !done && frames < u32::MAX {
        ((frames + 1) as u32, frames + 1 == SHOT_FRAME)
    } else {
        (frames, false)
    }
}

/// Whether the window is pictured in this frame.
pub fn shot_due(frames: &mut u32, wanted: bool, done: bool) -> (r: bool)
    ensures
        (*final(frames), r) == shot_after(*old(frames), wanted, done),
{
    if !wanted || done || *frames == u32::MAX {
        return false;
    }
    *frames = *frames + 1;
    *frames == SHOT_FRAME
}

/// Whether the scene is ready to be drawn into a picture.
#[derive(Debug, Clone, Copy, PartialEq, Eq, Structural)]
pub struct ShotTimer {
    pub frames: u32,
    pub stable: u32,
}

/// What is known of a tile stream: how many tiles are being fetched, how many are loaded.
#[derive(Debug, Clone, Copy, PartialEq, Eq, Structural)]
pub struct StreamState {
    pub inflight: usize,
    pub loaded: usize,
}

/// One more, up to the greatest number.
pub open spec fn next(n: u32) -> u32 {
    if n < u32::MAX {
        (n + 1) as u32
    } else {
        n
    }
}

/// The timer after a frame, and whether the picture is taken: after thirty frames, once assets are
/// there, the globe has as many tiles as it keeps (or has had its time), and the map has had tiles
/// and none on the way for ninety frames.
pub open spec fn timer_after(
    g: ShotTimer,
    asset_ready: bool,
    globe: Option<StreamState>,
    globe_capacity: usize,
    map: Option<StreamState>,
) -> (ShotTimer, bool) {
    let frames = next(g.frames);
    let globe_ready = match globe {
        Some(s) => s.inflight == 0 && (s.loaded >= globe_capacity || frames > 900),
        None => true,
    };
    let stable = match map {
        Some(s) => if s.inflight == 0 && (s.loaded > 0 || frames > 18_000) {
            next(g.stable)
        } else {
            0
        },
        None => g.stable,
    };
    let map_ready = map is Some ==> stable >= 90;
    (ShotTimer { frames, stable }, frames > 30 && asset_ready && map_ready && globe_ready)
}

impl ShotTimer {
    /// The timer before the first frame.
    pub fn new() -> (r: Self)
        ensures
            r == (ShotTimer { frames: 0, stable: 0 }),
    {
        ShotTimer { frames: 0, stable: 0 }
    }

    /// One frame; says whether the picture is taken. `map` is the state of the map's tile stream,
    /// where it is running.
    pub fn frame(
        &mut self,
        asset_ready: bool,
        globe: Option<StreamState>,
        globe_capacity: usize,
        map: Option<StreamState>,
    ) -> (r: bool)
        ensures
            (*final(self), r) == timer_after(*old(self), asset_ready, globe, globe_capacity, map),
    {
        self.frames = self.frames.saturating_add(1);
        let globe_ready: bool = match globe {
            Some(s) => s.inflight == 0 && (s.loaded >= globe_capacity || self.frames > 900),
            None => true,
        };
        let map_ready: bool = match map {
            Some(s) => {
                self.stable = if s.inflight == 0 && (s.loaded > 0 || self.frames > 18_000) {
                    self.stable.saturating_add(1)
                } else {
                    0
                };
                self.stable >= 90
            },
            None => true,
        };
        self.frames > 30 && asset_ready && map_ready && globe_ready
    }
}

/// No picture is taken while tiles of the map are on the way.
pub proof fn pictures_wait_for_tiles(
    g: ShotTimer,
    asset_ready: bool,
    globe: Option<StreamState>,
    capacity: usize,
    map: StreamState,
)
    requires
        map.inflight > 0,
    ensures
        !timer_after(g, asset_ready, globe, capacity, Some(map)).1,
        timer_after(g, asset_ready, globe, capacity, Some(map)).0.stable == 0,
{
}

/// Whether the program ends: its picture was taken, or its frames are used up and no picture of
/// the window is still to be taken.
pub open spec fn ends(
    frames: u32,
    limit: Option<u32>,
    want_shot: bool,
    shot_done: bool,
    want_render: bool,
    render_done: bool,
) -> bool {
    (want_render && render_done) || match limit {
        Some(n) => frames >= n && !(want_shot && !shot_done),
        None => want_shot && shot_done,
    }
}

/// Whether the program ends: its picture was taken, or its frames are used up and no picture of
/// the window is still to be taken.
pub fn should_exit(
    frames: u32,
    limit: Option<u32>,
    want_shot: bool,
    shot_done: bool,
    want_render: bool,
    render_done: bool,
) -> (r: bool)
    ensures
        r == ends(frames, limit, want_shot, shot_done, want_render, render_done),
{
    if want_render && render_done {
        return true;
    }
    match limit {
        Some(n) => frames >= n && !(want_shot && !shot_done),
        None => want_shot && shot_done,
    }
}

/// Whether the size of the window can be relied on: it differs from the default size of 1600 by
/// 900 pixels by more than one, or thirty frames have passed. Lengths are in thousandths of a
/// pixel.
pub open spec fn size_known(frames: u32, w: int, h: int) -> bool {
    frames > 30 || w - 1_600_000 > 1000 || 1_600_000 - w > 1000 || h - 900_000 > 1000 || 900_000 - h
        > 1000
}

/// Whether the size of the window can be relied on.
pub fn size_ready(frames: u32, w: i64, h: i64) -> (r: bool)
    requires
        0 <= w <= 0x8000_0000,
        0 <= h <= 0x8000_0000,
    ensures
        r == size_known(frames, w as int, h as int),
{
    frames > 30 || w - 1_600_000 > 1000 || 1_600_000 - w > 1000 || h - 900_000 > 1000 || 900_000 - h
        > 1000
}

/// The pixels of a picture without their fourth byte, blue and red exchanged.
pub open spec fn rgb_pixels(bgra: Seq<u8>) -> Seq<u8> {
    Seq::new(
        (bgra.len() as int / 4 * 3) as nat,
        |i: int| bgra[i / 3 * 4 + 2 - i % 3],
    )
}

/// The pixels of a picture without their fourth byte, blue and red exchanged.
pub fn bgra_to_rgb(bgra: &[u8]) -> (r: Vec<u8>)
    ensures
        r@ == rgb_pixels(bgra@),
{
    let n: usize = bgra.len() / 4;
    let mut out: Vec<u8> = Vec::new();
    let mut i: usize = 0;
    while i < n
        invariant
            i <= n,
            n == bgra@.len() as int / 4,
            n * 4 <= bgra@.len() <= usize::MAX,
            out@.len() == 3 * i,
            out@ =~= rgb_pixels(bgra@).take(3 * i as int),
        decreases n - i,
    {
        let ghost before = out@;
        out.push(bgra[4 * i + 2]);
        out.push(bgra[4 * i + 1]);
        out.push(bgra[4 * i]);
        proof {
            let all = rgb_pixels(bgra@);
            let k = 3 * i as int;
            assert(all[k] == bgra@[4 * i + 2]);
            assert(all[k + 1] == bgra@[4 * i + 1]);
            assert(all[k + 2] == bgra@[4 * i as int]);
        }
        i = i + 1;
    }
    assert(rgb_pixels(bgra@).take(3 * n as int) =~= rgb_pixels(bgra@));
    out
}

} // verus!
