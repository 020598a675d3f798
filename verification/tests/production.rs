use gamerobotfactory::production::ids_ascending;
use gamerobotfactory::sim::Robot;

#[test]
fn production_ids_come_in_ascending_order_whatever_the_robot_order() {
    let robots_a = vec![Robot::new(3, (0, 0), (0, 0)), Robot::new(1, (0, 0), (0, 0)), Robot::new(2, (1, 0), (1, 0))];
    let robots_b = vec![Robot::new(1, (0, 0), (0, 0)), Robot::new(2, (1, 0), (1, 0)), Robot::new(3, (0, 0), (0, 0))];
    assert_eq!(ids_ascending(&robots_a), vec![1, 2, 3]);
    assert_eq!(ids_ascending(&robots_a), ids_ascending(&robots_b));
    assert_eq!(ids_ascending(&Vec::new()), Vec::<u32>::new());
}

#[test]
fn repeated_ids_are_all_kept() {
    let robots = vec![Robot::new(7, (0, 0), (0, 0)), Robot::new(2, (0, 0), (0, 0)), Robot::new(7, (1, 0), (1, 0))];
    assert_eq!(ids_ascending(&robots), vec![2, 7, 7]);
}
