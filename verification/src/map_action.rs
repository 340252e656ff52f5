use vstd::prelude::*;

verus! {

/// Everything the player can ask for while walking the map.
#[derive(Clone, Copy, PartialEq, Eq, Structural, Debug)]
pub enum MapAction {
    ActLeft,
    ActRight,
    ActUp,
    ActDown,
    ActUpLeft,
    ActUpRight,
    ActDownLeft,
    ActDownRight,
    AutoActLeft,
    AutoActRight,
    AutoActUp,
    AutoActDown,
    AutoActUpLeft,
    AutoActUpRight,
    AutoActDownLeft,
    AutoActDownRight,
    MoveLeft,
    MoveRight,
    MoveUp,
    MoveDown,
    MoveUpLeft,
    MoveUpRight,
    MoveDownLeft,
    MoveDownRight,
    SearchContainer,
    StayStill,
    OpenDoor,
    PickupItem,
    ShowInventoryMenu,
    ShowDropMenu,
    ShowActionMenu,
    ShowEquipmentMenu,
    SearchHidden,
    DisarmTrap,
    ArmTrap,
    GrabFurniture,
    ReleaseFurniture,
    Attack,
    Hide,
    Exit,
    LeaveDungeon,
    Interact,
    ScrollLeft,
    ScrollRight,
    ScrollDown,
    ScrollUp,
}

impl MapAction {
    /// The full list of map actions, in the order menus present them.
    pub fn actions() -> (r: Vec<MapAction>)
        ensures
            r@ =~= seq![
                MapAction::ActLeft,
                MapAction::ActRight,
                MapAction::ActUp,
                MapAction::ActDown,
                MapAction::ActUpLeft,
                MapAction::ActUpRight,
                MapAction::ActDownLeft,
                MapAction::ActDownRight,
                MapAction::AutoActLeft,
                MapAction::AutoActRight,
                MapAction::AutoActUp,
                MapAction::AutoActDown,
                MapAction::AutoActUpLeft,
                MapAction::AutoActUpRight,
                MapAction::AutoActDownLeft,
                MapAction::AutoActDownRight,
                MapAction::MoveLeft,
                MapAction::MoveRight,
                MapAction::MoveUp,
                MapAction::MoveDown,
                MapAction::MoveUpLeft,
                MapAction::MoveUpRight,
                MapAction::MoveDownLeft,
                MapAction::MoveDownRight,
                MapAction::SearchContainer,
                MapAction::StayStill,
                MapAction::OpenDoor,
                MapAction::PickupItem,
                MapAction::ShowInventoryMenu,
                MapAction::ShowDropMenu,
                MapAction::ShowActionMenu,
                MapAction::ShowEquipmentMenu,
                MapAction::SearchHidden,
                MapAction::DisarmTrap,
                MapAction::ArmTrap,
                MapAction::GrabFurniture,
                MapAction::ReleaseFurniture,
                MapAction::Attack,
                MapAction::Hide,
                MapAction::Exit,
                MapAction::LeaveDungeon,
                MapAction::Interact,
                MapAction::ScrollLeft,
                MapAction::ScrollRight,
                MapAction::ScrollDown,
                MapAction::ScrollUp,
            ],
    {
        let mut r: Vec<MapAction> = Vec::new();
        r.push(MapAction::ActLeft);
        r.push(MapAction::ActRight);
        r.push(MapAction::ActUp);
        r.push(MapAction::ActDown);
        r.push(MapAction::ActUpLeft);
        r.push(MapAction::ActUpRight);
        r.push(MapAction::ActDownLeft);
        r.push(MapAction::ActDownRight);
        r.push(MapAction::AutoActLeft);
        r.push(MapAction::AutoActRight);
        r.push(MapAction::AutoActUp);
        r.push(MapAction::AutoActDown);
        r.push(MapAction::AutoActUpLeft);
        r.push(MapAction::AutoActUpRight);
        r.push(MapAction::AutoActDownLeft);
        r.push(MapAction::AutoActDownRight);
        r.push(MapAction::MoveLeft);
        r.push(MapAction::MoveRight);
        r.push(MapAction::MoveUp);
        r.push(MapAction::MoveDown);
        r.push(MapAction::MoveUpLeft);
        r.push(MapAction::MoveUpRight);
        r.push(MapAction::MoveDownLeft);
        r.push(MapAction::MoveDownRight);
        r.push(MapAction::SearchContainer);
        r.push(MapAction::StayStill);
        r.push(MapAction::OpenDoor);
        r.push(MapAction::PickupItem);
        r.push(MapAction::ShowInventoryMenu);
        r.push(MapAction::ShowDropMenu);
        r.push(MapAction::ShowActionMenu);
        r.push(MapAction::ShowEquipmentMenu);
        r.push(MapAction::SearchHidden);
        r.push(MapAction::DisarmTrap);
        r.push(MapAction::ArmTrap);
        r.push(MapAction::GrabFurniture);
        r.push(MapAction::ReleaseFurniture);
        r.push(MapAction::Attack);
        r.push(MapAction::Hide);
        r.push(MapAction::Exit);
        r.push(MapAction::LeaveDungeon);
        r.push(MapAction::Interact);
        r.push(MapAction::ScrollLeft);
        r.push(MapAction::ScrollRight);
        r.push(MapAction::ScrollDown);
        r.push(MapAction::ScrollUp);
        r
    }
}

} // verus!
