use uneven_waves::actors::{Actor, ResistanceAction, ResistanceActor};

#[test]
pub fn test_resistance_action_eq() {
    let action_a = ResistanceAction {
        public_coord: (0, 0),
        private_coord: (0, 0),
    };
    let action_b = ResistanceAction {
        public_coord: (0, 0),
        private_coord: (0, 0),
    };
    let action_c = ResistanceAction {
        public_coord: (0, 0),
        private_coord: (1, 0),
    };
    assert_eq!(action_a, action_b);
    assert_ne!(action_a, action_c);
}

#[test]
pub fn test_take_action() {
    let mut resistance = ResistanceActor::new();
    let action = ResistanceAction {
        public_coord: (0, 0),
        private_coord: (1, 0),
    };

    resistance.take_action(action);
    let mut control: Vec<ResistanceAction> = Vec::new();
    control.push(action.clone());
    assert_eq!(resistance.action_queue, control)
}

#[test]
pub fn test_undo_action() {
    let mut resistance = ResistanceActor::new();
    let action_a = ResistanceAction {
        public_coord: (0, 0),
        private_coord: (1, 0),
    };
    let action_b = ResistanceAction {
        public_coord: (0, 0),
        private_coord: (0, 0),
    };
    let mut control: Vec<ResistanceAction> = Vec::new();
    control.push(action_a);

    resistance.take_action(action_a);
    resistance.take_action(action_b);
    let should_be_a = resistance.undo_action().unwrap();
    assert_eq!(*should_be_a, action_a);
    assert_eq!(*resistance.action_queue(), control);
}
