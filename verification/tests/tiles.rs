use glance::crop::{Area, PIXEL};
use glance::tiles::{
    scaling_filter, tile_serves, uncovered, Filter, Playback, RenderQueue, Ticket,
};

fn ticket(generation: u64, job: u32) -> Ticket<u32> {
    Ticket { generation, job }
}

fn area(x: i64, y: i64, width: i64, height: i64) -> Area {
    Area { x: x * PIXEL, y: y * PIXEL, width: width * PIXEL, height: height * PIXEL }
}

#[test]
fn one_render_runs_and_the_newest_waits() {
    let mut queue: RenderQueue<u32> = RenderQueue::new();
    let first = queue.advance();
    assert_eq!(queue.submit(ticket(first, 1)).map(|t| t.job), Some(1));
    let second = queue.advance();
    assert!(queue.submit(ticket(second, 2)).is_none());
    let third = queue.advance();
    assert!(queue.submit(ticket(third, 3)).is_none());
    // The first one is out of date by now, and the newest goes next.
    assert!(!queue.landed(first));
    assert_eq!(queue.follow_up(Some(ticket(first, 9))).map(|t| t.job), Some(3));
    assert!(queue.landed(third));
    assert_eq!(queue.follow_up(Some(ticket(third, 10))).map(|t| t.job), Some(10));
    assert!(queue.landed(third));
    assert!(queue.follow_up(None).is_none());
    assert!(!queue.rendering);
}

#[test]
fn another_image_drops_what_waits() {
    let mut queue: RenderQueue<u32> = RenderQueue::new();
    let round = queue.advance();
    queue.submit(ticket(round, 1));
    queue.submit(ticket(round, 2));
    queue.retire();
    assert!(!queue.landed(round));
    assert!(queue.follow_up(None).is_none());
}

#[test]
fn a_tile_serves_while_it_covers_and_is_sharp() {
    let tile = area(0, 0, 100, 100);
    assert!(tile_serves(tile, 100, area(10, 10, 50, 50), 120));
    assert!(!tile_serves(tile, 100, area(10, 10, 50, 50), 121));
    assert!(!tile_serves(tile, 100, area(60, 10, 50, 50), 100));
    let near = Area { x: -PIXEL / 2, y: 0, width: 100 * PIXEL, height: 100 * PIXEL };
    assert!(tile_serves(tile, 100, near, 100));
    let far = Area { x: -PIXEL / 2 - 1, y: 0, width: 100 * PIXEL, height: 100 * PIXEL };
    assert!(!tile_serves(tile, 100, far, 100));
}

#[test]
fn bands_and_tile_share_the_image() {
    let tile = area(3, 4, 5, 6);
    let bands = uncovered(20 * PIXEL, 15 * PIXEL, tile);
    assert_eq!(bands.len(), 4);
    for y in 0..15 {
        for x in 0..20 {
            let (px, py) = (x * PIXEL + PIXEL / 2, y * PIXEL + PIXEL / 2);
            let lies_in = |a: &Area| {
                a.x <= px && px < a.x + a.width && a.y <= py && py < a.y + a.height
            };
            let count = bands.iter().filter(|band| lies_in(band)).count();
            assert_eq!(count + usize::from(lies_in(&tile)), 1, "{x},{y}");
        }
    }
    assert!(uncovered(20 * PIXEL, 15 * PIXEL, area(-1, -1, 40, 40)).is_empty());
    assert_eq!(uncovered(20 * PIXEL, 15 * PIXEL, area(0, 0, 10, 15)).len(), 1);
}

#[test]
fn pixels_are_only_blocky_up_close() {
    let one = PIXEL as u64;
    assert_eq!(scaling_filter(3 * one, true, false), Filter::Nearest);
    assert_eq!(scaling_filter(3 * one, false, false), Filter::Linear);
    assert_eq!(scaling_filter(3 * one, true, true), Filter::Linear);
    assert_eq!(scaling_filter(3 * one - 1, true, false), Filter::Linear);
    assert_eq!(scaling_filter(one, true, false), Filter::Linear);
    assert_eq!(scaling_filter(one - 1, true, false), Filter::Trilinear);
}

#[test]
fn an_animation_goes_round() {
    let mut playback = Playback::start(3);
    assert!(playback.plays());
    let shown: Vec<Option<usize>> = (0..4).map(|_| playback.advance()).collect();
    assert_eq!(shown, [Some(1), Some(2), Some(0), Some(1)]);
    assert!(!Playback::start(1).plays());
    assert_eq!(Playback::start(0).advance(), None);
}
