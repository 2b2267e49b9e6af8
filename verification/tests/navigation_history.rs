use pepper::buffer::BufferHandle;
use pepper::buffer_position::BufferPosition;
use pepper::navigation_history::{NavigationHistory, NavigationHistorySnapshot, NavigationMovement};

/// A client: its history and the buffer it shows.
struct Client {
    history: NavigationHistory,
    current: Option<NavigationHistorySnapshot>,
}

fn place(buffer: u32) -> NavigationHistorySnapshot {
    NavigationHistorySnapshot { buffer_handle: BufferHandle(buffer), position: BufferPosition::line_col(0, 0) }
}

impl Client {
    fn save_snapshot(&mut self) {
        self.history.save_snapshot(self.current);
    }

    fn show(&mut self, buffer: u32) {
        self.current = Some(place(buffer));
    }

    fn move_in_history(&mut self, movement: NavigationMovement) {
        if let Some(snapshot) = self.history.move_in_history(movement, self.current) {
            self.current = Some(snapshot);
        }
    }

    fn move_to_previous_buffer(&mut self) {
        if let Some(buffer) = self.history.move_to_previous_buffer(self.current) {
            self.show(buffer.0);
        }
    }

    fn buffer_index(&self) -> usize {
        self.current.unwrap().buffer_handle.0 as usize
    }
}

fn setup() -> Client {
    let mut client = Client { history: NavigationHistory::default(), current: None };
    client.save_snapshot();
    client.show(0);
    client.save_snapshot();
    client.show(1);
    client.save_snapshot();
    client.show(2);
    client
}

#[test]
fn move_back_and_forward_in_history() {
    let mut client = setup();

    assert_eq!(2, client.history.current_snapshot_index());
    assert_eq!(2, client.buffer_index());

    client.move_in_history(NavigationMovement::Forward);
    assert_eq!(2, client.history.current_snapshot_index());
    assert_eq!(2, client.buffer_index());

    client.move_in_history(NavigationMovement::Backward);
    assert_eq!(1, client.history.current_snapshot_index());
    assert_eq!(1, client.buffer_index());

    client.move_in_history(NavigationMovement::Backward);
    assert_eq!(0, client.history.current_snapshot_index());
    assert_eq!(0, client.buffer_index());

    client.move_in_history(NavigationMovement::Backward);
    assert_eq!(0, client.history.current_snapshot_index());
    assert_eq!(0, client.buffer_index());

    client.move_in_history(NavigationMovement::Forward);
    assert_eq!(1, client.history.current_snapshot_index());
    assert_eq!(1, client.buffer_index());

    assert_eq!(3, client.history.snapshot_count());
}

#[test]
fn move_to_previous_buffer_three_times() {
    let mut client = setup();

    assert_eq!(2, client.buffer_index());

    client.move_to_previous_buffer();
    assert_eq!(1, client.buffer_index());

    client.move_to_previous_buffer();
    assert_eq!(2, client.buffer_index());

    client.move_to_previous_buffer();
    assert_eq!(1, client.buffer_index());
}

#[test]
fn navigate_back_then_move_to_previous_buffer() {
    let mut client = setup();

    client.move_in_history(NavigationMovement::Backward);
    assert_eq!(1, client.history.current_snapshot_index());
    assert_eq!(1, client.buffer_index());

    client.move_in_history(NavigationMovement::Backward);
    assert_eq!(0, client.history.current_snapshot_index());
    assert_eq!(0, client.buffer_index());

    client.move_in_history(NavigationMovement::Forward);
    assert_eq!(1, client.history.current_snapshot_index());
    assert_eq!(1, client.buffer_index());

    assert_eq!(3, client.history.snapshot_count());

    client.move_to_previous_buffer();
    assert_eq!(2, client.history.current_snapshot_index());
    assert_eq!(2, client.buffer_index());

    assert_eq!(3, client.history.snapshot_count());

    client.move_to_previous_buffer();
    assert_eq!(1, client.history.current_snapshot_index());
    assert_eq!(1, client.buffer_index());

    client.move_to_previous_buffer();
    assert_eq!(2, client.history.current_snapshot_index());
    assert_eq!(2, client.buffer_index());

    assert_eq!(3, client.history.snapshot_count());
}

#[test]
fn removing_a_buffer_drops_its_snapshots() {
    let mut client = setup();
    client.move_in_history(NavigationMovement::Backward);
    assert_eq!(3, client.history.snapshot_count());
    assert_eq!(1, client.history.current_snapshot_index());

    client.history.remove_snapshots_with_buffer_handle(BufferHandle(0));
    assert_eq!(2, client.history.snapshot_count());
    assert_eq!(0, client.history.current_snapshot_index());

    client.history.remove_snapshots_with_buffer_handle(BufferHandle(7));
    assert_eq!(2, client.history.snapshot_count());

    client.history.clear();
    assert_eq!(0, client.history.snapshot_count());
    assert_eq!(0, client.history.current_snapshot_index());
}
