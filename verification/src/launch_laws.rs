//! Laws of starting and ending: options, scenes and pictures.

use vstd::prelude::*;

use crate::launch::{
    frame_count, mode, numbers, parsed, rgb_pixels, scene, timer_after, view_of, LaunchView,
    RenderMode, ShotTimer, StreamState,
};
use crate::string_laws::stands_at;
use crate::text::{digits, is_float, occurs_at, pieces_from};

verus! {

// ---------- options ----------

proof fn lemma_options()
    ensures
        "--map"@.len() == 5,
        "--zoom"@.len() == 6,
        "--frames"@.len() == 8,
        "--globe-alt"@.len() == 11,
        "--screenshot"@.len() == 12,
        "--globe-view"@.len() == 12,
        "--selftest-ui"@.len() == 13,
        "--render-image"@.len() == 14,
        "--render-globe"@.len() == 14,
        "--screenshot"@[2] != "--globe-view"@[2],
        "--render-image"@[9] != "--render-globe"@[9],
{
    reveal_strlit("--map");
    reveal_strlit("--zoom");
    reveal_strlit("--frames");
    reveal_strlit("--globe-alt");
    reveal_strlit("--screenshot");
    reveal_strlit("--globe-view");
    reveal_strlit("--selftest-ui");
    reveal_strlit("--render-image");
    reveal_strlit("--render-globe");
}

/// Each option that takes a value sets its own field to the argument behind it, and no other; reading goes
/// on behind that argument. A number that cannot be read leaves nothing, and a view that cannot be read
/// leaves the one before.
pub proof fn options_set_their_own_field(args: Seq<Seq<char>>, i: int, l: LaunchView)
    requires
        0 <= i,
        i + 1 < args.len(),
    ensures
        ({
            let v = args[i + 1];
            let num = if is_float(v) {
                Some(v)
            } else {
                None
            };
            &&& args[i] == "--map"@ ==> parsed(args, i, l) == parsed(
                args,
                i + 2,
                LaunchView { map_path: Some(v), ..l },
            )
            &&& args[i] == "--screenshot"@ ==> parsed(args, i, l) == parsed(
                args,
                i + 2,
                LaunchView { screenshot: Some(v), ..l },
            )
            &&& args[i] == "--render-image"@ ==> parsed(args, i, l) == parsed(
                args,
                i + 2,
                LaunchView { render_image: Some(v), ..l },
            )
            &&& args[i] == "--frames"@ ==> parsed(args, i, l) == parsed(
                args,
                i + 2,
                LaunchView { frames: frame_count(v), ..l },
            )
            &&& args[i] == "--globe-alt"@ ==> parsed(args, i, l) == parsed(
                args,
                i + 2,
                LaunchView { globe_alt: num, ..l },
            )
            &&& args[i] == "--zoom"@ ==> parsed(args, i, l) == parsed(
                args,
                i + 2,
                LaunchView { zoom: num, ..l },
            )
            &&& args[i] == "--globe-view"@ ==> parsed(args, i, l) == parsed(
                args,
                i + 2,
                LaunchView {
                    globe_view: if view_of(v) is Some {
                        view_of(v)
                    } else {
                        l.globe_view
                    },
                    ..l
                },
            )
        }),
{
    lemma_options();
}

/// The pictures of the panels and of the globe have names of their own where no picture is named yet; the
/// name of a picture of the globe may stand behind the option, where it is no option itself.
pub proof fn picture_options_name_their_picture(args: Seq<Seq<char>>, i: int, l: LaunchView)
    requires
        0 <= i < args.len(),
    ensures
        args[i] == "--selftest-ui"@ ==> parsed(args, i, l) == parsed(
            args,
            i + 1,
            LaunchView {
                selftest_ui: true,
                render_image: if l.render_image is Some {
                    l.render_image
                } else {
                    Some("/tmp/selftest_ui.png"@)
                },
                ..l
            },
        ),
        args[i] == "--render-globe"@ && i + 1 < args.len() && !stands_at(args[i + 1], seq!['-', '-'], 0)
            ==> parsed(args, i, l) == parsed(
            args,
            i + 2,
            LaunchView { render_globe: true, render_image: Some(args[i + 1]), ..l },
        ),
        args[i] == "--render-globe"@ && (i + 1 == args.len() || stands_at(
            args[i + 1],
            seq!['-', '-'],
            0,
        )) ==> parsed(args, i, l) == parsed(
            args,
            i + 1,
            LaunchView {
                render_globe: true,
                render_image: if l.render_image is Some {
                    l.render_image
                } else {
                    Some("/tmp/globe.png"@)
                },
                ..l
            },
        ),
{
    lemma_options();
    reveal_strlit("--");
    let dashes = seq!['-', '-'];
    assert("--"@ =~= dashes);
    if i + 1 < args.len() {
        let a = args[i + 1];
        if stands_at(a, dashes, 0) {
            assert forall|j: int| 0 <= j < 2 implies a.subrange(0, 2)[j] == dashes[j] by {
                assert(a[0 + j] == dashes[j]);
            }
            assert(a.subrange(0, 2) =~= dashes);
        }
        if occurs_at(a, dashes, 0) {
            assert forall|j: int| 0 <= j < dashes.len() implies a[0 + j] == #[trigger] dashes[j] by {
                assert(a.subrange(0, 2)[j] == a[j]);
            }
        }
    }
}

/// What is no option is passed over. An option that takes a value and has none behind it asks for nothing,
/// and neither do no arguments.
pub proof fn other_arguments_are_passed_over(args: Seq<Seq<char>>, i: int, l: LaunchView)
    requires
        0 <= i,
    ensures
        i < args.len() && !("--map"@ == args[i] || "--screenshot"@ == args[i] || "--render-image"@
            == args[i] || "--frames"@ == args[i] || "--globe-alt"@ == args[i] || "--globe-view"@
            == args[i] || "--zoom"@ == args[i] || "--selftest-ui"@ == args[i] || "--render-globe"@
            == args[i]) ==> parsed(args, i, l) == parsed(args, i + 1, l),
        i + 1 == args.len() && ("--map"@ == args[i] || "--screenshot"@ == args[i] || "--render-image"@
            == args[i] || "--frames"@ == args[i] || "--globe-alt"@ == args[i] || "--globe-view"@
            == args[i] || "--zoom"@ == args[i]) ==> parsed(args, i, l) == l,
        i >= args.len() ==> parsed(args, i, l) == l,
{
}

/// A number of frames is read back from its numeral, as far as it fits.
pub proof fn frames_are_counted(n: nat)
    ensures
        n <= u32::MAX ==> frame_count(digits(n)) == Some(n as u32),
        n > u32::MAX ==> frame_count(digits(n)) is None,
{
    crate::string_laws::integers_are_read_back(n as int, 0, u32::MAX as int);
}

proof fn lemma_numbers(pieces: Seq<Seq<char>>, n: int)
    requires
        0 <= n <= pieces.len(),
    ensures
        numbers(pieces, n) == pieces.take(n).filter(|p: Seq<char>| is_float(p)),
    decreases n,
{
    reveal(Seq::filter);
    let f = |p: Seq<char>| is_float(p);
    if n > 0 {
        lemma_numbers(pieces, n - 1);
        assert(pieces.take(n).drop_last() =~= pieces.take(n - 1));
        assert(pieces.take(n).last() == pieces[n - 1]);
    } else {
        assert(pieces.take(0) =~= Seq::empty());
    }
}

/// A view is made of the numbers between commas: the first is the latitude, the second the longitude, and
/// the third, where there is one, the height. With fewer than two there is no view.
pub proof fn views_are_made_of_numbers(s: Seq<char>)
    ensures
        ({
            let p = pieces_from(s, ',', 0).filter(|p: Seq<char>| is_float(p));
            &&& view_of(s) is Some <==> p.len() >= 2
            &&& p.len() >= 2 ==> view_of(s)->Some_0.0 == p[0] && view_of(s)->Some_0.1 == p[1]
            &&& p.len() == 2 ==> view_of(s)->Some_0.2 is None
            &&& p.len() >= 3 ==> view_of(s)->Some_0.2 == Some(p[2])
        }),
{
    let pieces = pieces_from(s, ',', 0);
    lemma_numbers(pieces, pieces.len() as int);
    assert(pieces.take(pieces.len() as int) =~= pieces);
}

// ---------- scenes ----------

/// The panels come before the globe, the globe before the map, and the window is what is left. The tiles of
/// the map are loaded where no map is named. Pictures have 1600 by 900 pixels, that of the panels 400 by
/// 300.
pub proof fn scenes_are_chosen_in_order(l: LaunchView)
    ensures
        l.selftest_ui ==> mode(l) == RenderMode::Selftest && scene(l).picture == Some(
            ("/tmp/selftest_ui.png"@, 400u32, 300u32),
        ) && !scene(l).units && !scene(l).globe && scene(l).flat_camera == Some(true) && scene(l).live,
        !l.selftest_ui && l.render_globe ==> mode(l) == RenderMode::ImageGlobe && scene(l).picture
            == Some((l.render_image->Some_0, 1600u32, 900u32)) && scene(l).units && scene(l).globe
            && scene(l).flat_camera is None && scene(l).live == (l.map_path is None),
        !l.selftest_ui && !l.render_globe && l.render_image is Some ==> mode(l) == RenderMode::ImageMap
            && scene(l).picture == Some((l.render_image->Some_0, 1600u32, 900u32)) && scene(l).units
            && !scene(l).globe && scene(l).flat_camera == Some(true) && scene(l).live == (
        l.map_path is None),
        !l.selftest_ui && !l.render_globe && l.render_image is None ==> mode(l) == RenderMode::Window
            && scene(l).picture is None && scene(l).units && scene(l).globe && scene(l).flat_camera
            == Some(false) && scene(l).live == (l.map_path is None),
{
}

// ---------- pictures ----------

/// A picture is taken from the thirty-first frame on, once assets are there, the globe fetches nothing and
/// has all the tiles that it keeps or has had nine hundred frames, and the map, where it is loaded, has
/// fetched nothing for ninety frames in which it had tiles or after eighteen thousand.
pub proof fn pictures_are_taken_when_all_is_there(
    g: ShotTimer,
    asset_ready: bool,
    globe: Option<StreamState>,
    capacity: usize,
    map: Option<StreamState>,
)
    requires
        g.frames < u32::MAX,
        g.stable < u32::MAX,
    ensures
        ({
            let (after, taken) = timer_after(g, asset_ready, globe, capacity, map);
            &&& after.frames == g.frames + 1
            &&& map is None ==> after.stable == g.stable
            &&& map is Some && map->Some_0.inflight > 0 ==> after.stable == 0
            &&& map is Some && map->Some_0.inflight == 0 && map->Some_0.loaded > 0 ==> after.stable
                == g.stable + 1
            &&& map is Some && map->Some_0.inflight == 0 && map->Some_0.loaded == 0 ==> after.stable
                == if g.frames + 1 > 18_000 {
                g.stable + 1
            } else {
                0
            }
            &&& taken <==> {
                &&& g.frames + 1 > 30
                &&& asset_ready
                &&& globe is Some ==> globe->Some_0.inflight == 0 && (globe->Some_0.loaded >= capacity
                    || g.frames + 1 > 900)
                &&& map is Some ==> after.stable >= 90
            }
        }),
{
}

/// Each pixel keeps its colours: blue, green and red become red, green and blue, and the fourth byte is
/// left out, as is a pixel that is not complete.
pub proof fn pixels_keep_their_colours(bgra: Seq<u8>, k: int)
    requires
        0 <= k,
        4 * k + 3 < bgra.len(),
    ensures
        rgb_pixels(bgra).len() == 3 * (bgra.len() as int / 4),
        rgb_pixels(bgra)[3 * k] == bgra[4 * k + 2],
        rgb_pixels(bgra)[3 * k + 1] == bgra[4 * k + 1],
        rgb_pixels(bgra)[3 * k + 2] == bgra[4 * k],
{
}

} // verus!
