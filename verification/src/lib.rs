//! Verified game rules for a chunked mining and automation world: resources,
//! items and inventories, crafting, contracts, specialists, logistics and power.

pub mod components;
pub mod contracts;
pub mod crafting;
pub mod delivery;
pub mod furniture;
pub mod gui;
pub mod housing;
pub mod inventory;
pub mod item_transport;
pub mod items;
pub mod pause_menu;
pub mod machine_processing;
pub mod orbital_export;
pub mod power;
pub mod power_grid;
pub mod power_refresh;
pub mod icons;
pub mod power_network;
pub mod screen;
pub mod spawning;
pub mod specialists;
pub mod terrain;
pub mod text;
pub mod turret;
pub mod union_find;
pub mod use_item;
pub mod world;

pub use components::{Energy, Health, Wallet};
pub use contracts::{
    AcceptContractError, BuildAndExportContractProgress, CORPORATION_LEVEL_THRESHOLDS,
    ClaimContractError, Contract, ContractBoard, ContractCompany, ContractExportResult, ContractId,
    ContractProgressResult, ContractReward, CorporationProgress, ExportContractProgress,
    MAX_ACTIVE_CONTRACTS, MAX_CORPORATION_LEVEL, MineContractProgress, ProgramContractProgress,
    apply_export_to_contracts, apply_mined_to_contracts, built_in_contracts,
};
pub use crafting::{CRAFTING_RECIPES, CraftingError, CraftingIngredient, CraftingRecipe, crafting_recipe};
pub use inventory::{
    CHEST_COLUMNS, CHEST_ROWS, CHEST_SLOTS, HOTBAR_SLOTS, INVENTORY_COLUMNS, INVENTORY_ROWS,
    INVENTORY_SLOTS, Inventory, ItemContainer, SlotClick,
};
pub use items::{ItemDefinition, ItemId, ItemRegistry, ItemStack, built_in_item_definitions};
pub use terrain::{FurnitureObject, ObjectId, ObjectTypeId};
pub use delivery::{
    DELIVERY_DELAY_NANOS, DeliveryCrate, DeliverySystem, MACHINE_OFFERS, MAX_PENDING_DELIVERIES,
    MachineOffer, PROGRAM_DELIVERY_DELAY_NANOS, PurchaseError, ScheduleDeliveryError, machine_offer,
};
pub use gui::{
    HudSnapshot, MeterValue, SpecialistAction, SpecialistGui, SpecialistPage, format_delivery_eta, format_depth,
    truncate,
};
pub use housing::{
    MAX_HOUSE_INTERIOR_CELLS, MIN_HOUSE_INTERIOR_CELLS, RoomAssessment, assess_bed, assess_room,
    recruit_specialist,
};
pub use item_transport::{
    DEFAULT_ITEM_TRANSPORT_INTERVAL_NANOS, ItemTransportShape, ItemTransportSystem,
    ItemTransportUpdate, item_transport_shape,
};
pub use machine_processing::{
    COMPOSITE_ASSEMBLY_INTERVAL_NANOS, COMPOSITE_RECIPE, IRON_RECIPE, MachineProcessingSystem,
    MachineProcessingUpdate, ProcessingRecipe, processor_accepts_manual_input,
};
pub use orbital_export::{DEFAULT_ORBITAL_EXPORT_INTERVAL_NANOS, ExportShipment, OrbitalExportSystem};
pub use power_grid::{candidate_links, candidate_pairs, power_nodes};
pub use icons::{UTILITY_ICON_FRAMES, UTILITY_ICON_FRAME_SIZE, UTILITY_ICON_WIDTH, utility_icon_pixel, utility_icon_pixels};
pub use power_refresh::{PowerRefresh, connections_changed, dirty_candidates, power_refresh, recheck_visibility};
pub use power_network::{CandidateLink, PowerTopology, rebuild_components};
pub use power::{
    NetworkFlow, PowerFlow, PowerNode, distribute_network, distribute_networks, MACHINE_CONNECTION_LIMIT, POWER_CONNECTOR_CONNECTION_LIMIT, PYLON_CONNECTION_LIMIT,
};
pub use screen::{AppScreen, ScreenKey, ScreenState, screen_after_key, simulation_paused};
pub use spawning::{
    ChunkActivity, ChunkRect, DEFAULT_HOSTILE_MACHINERY_ATTENTION, GLOWGNAT_MIN_MACHINERY_ATTENTION,
    LifeformId, LifeformSimulationConfig, LifeformSystemError, MachineryArea, MachineryChunks,
    MachinerySource, SpawnRound, refresh_machinery_chunks, spawn_round_step, start_spawn_round,
};
pub use specialists::{
    BUILT_IN_SPECIALISTS, HappinessFactor, HappinessReport, HappinessRule, HouseRequirements,
    SpecialistBonus, SpecialistBonuses, SpecialistDefinition, SpecialistId, SpecialistRecord, happiness_report, specialist_definition,
};
pub use terrain::{BiomeId, CHUNK_SIZE, ChunkPos, ItemTransportRole, PowerRole, TilePos};
pub use use_item::{
    ItemAction, ItemTargetStatus, ItemUseResult, ProjectileKind, selected_item_target_size, selected_item_target_status,
    use_selected_item,
};
pub use world::{PlacementError, RecruitSpecialistError, World, WorldError, WorldObject};
