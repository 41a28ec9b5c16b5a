use r2::packet::Packet;
use r2::particle::{Particle, MAX_HEADROOM};
use r2::pool::{PacketPool, PktsHeap, R2PktPool, MAX_PACKETS};

const NUM_PKTS: usize = 10;
const NUM_PART: usize = 20;
const MAX_PACKET: usize = 1500;
const PARTICLE_SZ: usize = 512;

fn pattern(n: usize) -> Vec<u8> {
    (0..n).map(|x| (x % 256) as u8).collect()
}

#[test]
fn append_spans_three_particles() {
    let mut pool = PktsHeap::new(NUM_PKTS, NUM_PART, PARTICLE_SZ).unwrap();
    assert_eq!(pool.free_particle_count(), 20);
    assert_eq!(pool.free_packet_count(), 10);
    let mut pkt = pool.pkt(0).unwrap();
    assert_eq!(pkt.num_particles(), 1);
    assert_eq!(pkt.len(), 0);
    let data = pattern(MAX_PACKET);
    assert!(pkt.append(&mut pool, &data[0..]));
    assert_eq!(pkt.num_particles(), 3);
    assert_eq!(pkt.particle(0).len(), 512);
    assert_eq!(pkt.particle(1).len(), 512);
    assert_eq!(pkt.particle(2).len(), 476);
    assert_eq!(pkt.len(), 1500);
    assert_eq!(pool.free_particle_count(), 17);
    assert_eq!(pool.free_packet_count(), 9);
    pool.free_pkt(pkt);
    assert_eq!(pool.free_particle_count(), 20);
    assert_eq!(pool.free_packet_count(), 10);
}

#[test]
fn append_round_trip() {
    let mut pool = PktsHeap::new(NUM_PKTS, NUM_PART, PARTICLE_SZ).unwrap();
    let mut pkt = pool.pkt(0).unwrap();
    let data = pattern(MAX_PACKET);
    assert!(pkt.append(&mut pool, &data));
    let back = pkt.data();
    assert_eq!(back.len(), MAX_PACKET);
    for i in 0..MAX_PACKET {
        assert_eq!(back[i], i as u8);
    }
    assert_eq!(pkt.particle(1).data(), &data[512..1024]);
}

#[test]
fn append_in_pieces_keeps_order() {
    let mut pool = PktsHeap::new(4, 8, 16).unwrap();
    let mut pkt = pool.pkt(0).unwrap();
    let data = pattern(40);
    assert!(pkt.append(&mut pool, &data[0..10]));
    assert_eq!(pkt.num_particles(), 1);
    assert!(pkt.append(&mut pool, &data[10..16]));
    assert_eq!(pkt.num_particles(), 1);
    assert!(pkt.append(&mut pool, &data[16..17]));
    assert_eq!(pkt.num_particles(), 2);
    assert!(pkt.append(&mut pool, &data[17..40]));
    assert_eq!(pkt.num_particles(), 3);
    assert_eq!(pkt.len(), 40);
    assert_eq!(pkt.data(), data);
    assert_eq!(pool.free_particle_count(), 5);
}

#[test]
fn append_exactly_to_the_boundary() {
    let mut pool = PktsHeap::new(4, 8, 16).unwrap();
    let mut pkt = pool.pkt(0).unwrap();
    assert!(pkt.append(&mut pool, &pattern(32)));
    assert_eq!(pkt.num_particles(), 2);
    assert_eq!(pkt.particle(1).len(), 16);
    assert_eq!(pool.free_particle_count(), 6);
}

#[test]
fn append_nothing() {
    let mut pool = PktsHeap::new(1, 1, 16).unwrap();
    let mut pkt = pool.pkt(0).unwrap();
    assert!(pkt.append(&mut pool, &[]));
    assert_eq!(pkt.len(), 0);
    assert_eq!(pkt.num_particles(), 1);
}

#[test]
fn append_without_particles_changes_nothing() {
    let mut pool = PktsHeap::new(2, 3, 512).unwrap();
    let mut pkt = pool.pkt(0).unwrap();
    assert!(pkt.append(&mut pool, &pattern(100)));
    assert_eq!(pool.free_particle_count(), 2);
    // 1500 more bytes need three further particles; two are free
    assert!(!pkt.append(&mut pool, &pattern(MAX_PACKET)));
    assert_eq!(pkt.len(), 100);
    assert_eq!(pkt.num_particles(), 1);
    assert_eq!(pkt.data(), pattern(100));
    assert_eq!(pool.free_particle_count(), 2);
    // 1436 more bytes fill the first particle and the two that are free
    assert!(pkt.append(&mut pool, &pattern(1436)));
    assert_eq!(pkt.len(), 1536);
    assert_eq!(pkt.num_particles(), 3);
    assert_eq!(pool.free_particle_count(), 0);
    assert!(!pkt.append(&mut pool, &[7]));
    assert_eq!(pkt.len(), 1536);
}

#[test]
fn append_from_a_pool_of_another_size() {
    let mut small = PktsHeap::new(2, 4, 8).unwrap();
    let mut large = PktsHeap::new(2, 4, 16).unwrap();
    let mut pkt = small.pkt(0).unwrap();
    assert!(pkt.append(&mut large, &pattern(8)));
    assert!(!pkt.append(&mut large, &pattern(1)));
    assert_eq!(large.free_particle_count(), 4);
    assert!(pkt.append(&mut small, &pattern(1)));
    assert_eq!(pkt.num_particles(), 2);
}

#[test]
fn pool_runs_out_of_packets() {
    let mut pool = PktsHeap::new(2, 8, 64).unwrap();
    let a = pool.pkt(0).unwrap();
    let b = pool.pkt(0).unwrap();
    assert!(pool.pkt(0).is_none());
    assert_eq!(pool.free_packet_count(), 0);
    assert_eq!(pool.free_particle_count(), 6);
    pool.free_pkt(a);
    assert_eq!(pool.free_packet_count(), 1);
    assert!(pool.pkt(0).is_some());
    pool.free_pkt(b);
}

#[test]
fn pool_runs_out_of_particles() {
    let mut pool = PktsHeap::new(4, 2, 64).unwrap();
    let a = pool.particle(0).unwrap();
    let b = pool.pkt(0).unwrap();
    assert!(pool.particle(0).is_none());
    assert!(pool.pkt(0).is_none());
    assert_eq!(pool.free_packet_count(), 3);
    assert_eq!(pool.free_particle_count(), 0);
    pool.free_part(a);
    assert_eq!(pool.free_particle_count(), 1);
    pool.free_pkt(b);
    assert_eq!(pool.free_particle_count(), 2);
    assert_eq!(pool.free_packet_count(), 4);
}

#[test]
fn pool_never_holds_more_than_it_was_made_with() {
    let mut pool = PktsHeap::new(1, 2, 64).unwrap();
    let mut other = PktsHeap::new(1, 2, 64).unwrap();
    let stray = other.particle(0).unwrap();
    pool.free_part(stray);
    assert_eq!(pool.free_particle_count(), 2);
    let stray = other.pkt(0).unwrap();
    pool.free_pkt(stray);
    assert_eq!(pool.free_particle_count(), 2);
    assert_eq!(pool.free_packet_count(), 1);
    pool.free_part(Particle::new(32, 0));
    assert_eq!(pool.free_particle_count(), 2);
    assert_eq!(pool.packet_capacity(), 1);
    assert_eq!(pool.particle_capacity(), 2);
}

#[test]
fn pool_refuses_particles_of_another_size() {
    let mut pool = PktsHeap::new(1, 2, 64).unwrap();
    let a = pool.particle(0).unwrap();
    pool.free_part(Particle::new(32, 0));
    assert_eq!(pool.free_particle_count(), 1);
    pool.free_part(a);
    assert_eq!(pool.free_particle_count(), 2);
}

#[test]
fn pool_limits() {
    assert!(PktsHeap::new(0, 20, 512).is_none());
    assert!(PktsHeap::new(MAX_PACKETS + 1, 20, 512).is_none());
    let pool = PktsHeap::new(1, 0, 0).unwrap();
    assert_eq!(pool.particle_sz(), 0);
    assert_eq!(pool.free_particle_count(), 0);
    let pool = PktsHeap::new(3, 5, 3072).unwrap();
    assert_eq!(pool.particle_sz(), 3072);
}

#[test]
fn headroom_is_reserved_up_to_the_maximum() {
    let mut pool = PktsHeap::new(4, 8, 512).unwrap();
    let pkt = pool.pkt(14).unwrap();
    assert_eq!(pkt.headroom(), 14);
    assert_eq!(pkt.particle(0).tailroom(), 498);
    let pkt = pool.pkt(1000).unwrap();
    assert_eq!(pkt.headroom(), MAX_HEADROOM);
    let part = pool.particle(MAX_HEADROOM + 1).unwrap();
    assert_eq!(part.headroom(), 100);
    assert_eq!(part.size(), 512);
    assert_eq!(part.len(), 0);
    let mut tiny = PktsHeap::new(1, 1, 8).unwrap();
    let pkt = tiny.pkt(50).unwrap();
    assert_eq!(pkt.headroom(), 8);
    assert_eq!(pkt.particle_sz(), 8);
}

#[test]
fn prepend_uses_the_headroom() {
    let mut pool = PktsHeap::new(4, 8, 64).unwrap();
    let mut pkt = pool.pkt(14).unwrap();
    assert!(pkt.append(&mut pool, &pattern(100)));
    assert_eq!(pkt.num_particles(), 2);
    assert_eq!(pkt.particle(0).len(), 50);
    assert!(pkt.prepend(&[0xaa, 0xbb, 0xcc, 0xdd]));
    assert_eq!(pkt.headroom(), 10);
    assert_eq!(pkt.len(), 104);
    let mut want = vec![0xaa, 0xbb, 0xcc, 0xdd];
    want.extend(pattern(100));
    assert_eq!(pkt.data(), want);
    assert!(!pkt.prepend(&pattern(11)));
    assert_eq!(pkt.len(), 104);
    assert_eq!(pkt.data(), want);
    assert!(pkt.prepend(&pattern(10)));
    assert_eq!(pkt.headroom(), 0);
    assert!(!pkt.prepend(&[1]));
    assert!(pkt.prepend(&[]));
}

#[test]
fn particle_append_and_prepend() {
    let mut part = Particle::new(8, 2);
    assert_eq!(part.headroom(), 2);
    assert_eq!(part.tailroom(), 6);
    assert_eq!(part.append(&[1, 2, 3, 4]), 4);
    assert_eq!(part.append(&[5, 6, 7, 8]), 2);
    assert_eq!(part.data(), &[1, 2, 3, 4, 5, 6]);
    assert_eq!(part.fill(&[9], 0), 0);
    assert!(!part.prepend(&[0, 0, 0]));
    assert!(part.prepend(&[0xfe, 0xff]));
    assert_eq!(part.data(), &[0xfe, 0xff, 1, 2, 3, 4, 5, 6]);
    assert_eq!(part.len(), 8);
    part.reset(0);
    assert_eq!(part.len(), 0);
    assert_eq!(part.size(), 8);
    assert_eq!(part.fill(&[1, 2, 3], 2), 1);
    assert_eq!(part.data(), &[3]);
}

#[test]
fn shell_gets_its_first_particle() {
    let mut pkt = Packet::shell();
    assert_eq!(pkt.num_particles(), 0);
    assert_eq!(pkt.particle_sz(), 0);
    assert!(pkt.strip().is_none());
    pkt.arm(Particle::new(16, 4));
    assert_eq!(pkt.num_particles(), 1);
    assert_eq!(pkt.headroom(), 4);
    assert_eq!(pkt.len(), 0);
    let part = pkt.strip().unwrap();
    assert_eq!(part.size(), 16);
    assert_eq!(pkt.num_particles(), 0);
}

#[test]
fn empty_pool_gives_nothing() {
    let mut pool = R2PktPool {};
    assert!(pool.pkt(0).is_none());
    assert!(pool.particle(0).is_none());
    assert_eq!(pool.particle_sz(), 0);
    pool.free_part(Particle::new(16, 0));
    let mut heap = PktsHeap::new(1, 1, 16).unwrap();
    let mut pkt = heap.pkt(0).unwrap();
    assert!(!pkt.append(&mut pool, &pattern(17)));
    assert!(pkt.append(&mut pool, &pattern(16)));
    pool.free_pkt(pkt);
    assert!(pool.pkt(0).is_none());
}

#[test]
fn packet_from_bytes_reads_back() {
    let mut pool = PktsHeap::new(NUM_PKTS, NUM_PART, PARTICLE_SZ).unwrap();
    let data = pattern(MAX_PACKET);
    let pkt = Packet::from_bytes(&mut pool, 0, &data).unwrap();
    assert_eq!(pkt.len(), 1500);
    assert_eq!(pkt.num_particles(), 3);
    assert_eq!(pkt.data(), data);
    assert_eq!(pool.free_particle_count(), 17);
    assert_eq!(pool.free_packet_count(), 9);
    let with_room = Packet::from_bytes(&mut pool, 100, &data).unwrap();
    assert_eq!(with_room.num_particles(), 4);
    assert_eq!(with_room.particle(0).len(), 412);
    assert_eq!(with_room.particle(3).len(), 64);
    assert_eq!(with_room.headroom(), 100);
    assert_eq!(with_room.data(), data);
    let empty = Packet::from_bytes(&mut pool, 0, &[]).unwrap();
    assert_eq!(empty.num_particles(), 1);
    assert_eq!(empty.len(), 0);
}

#[test]
fn packet_from_bytes_without_room_changes_nothing() {
    let mut pool = PktsHeap::new(2, 2, 512).unwrap();
    assert!(Packet::from_bytes(&mut pool, 0, &pattern(1025)).is_none());
    assert_eq!(pool.free_particle_count(), 2);
    assert_eq!(pool.free_packet_count(), 2);
    let pkt = Packet::from_bytes(&mut pool, 0, &pattern(1024)).unwrap();
    assert_eq!(pkt.num_particles(), 2);
    assert!(Packet::from_bytes(&mut pool, 0, &[]).is_none());
    assert_eq!(pool.free_packet_count(), 1);
    let mut none = PktsHeap::new(1, 1, 0).unwrap();
    assert!(Packet::from_bytes(&mut none, 0, &[1]).is_none());
    assert!(Packet::from_bytes(&mut none, 0, &[]).is_some());
}

#[test]
fn outstanding_never_exceeds_capacity() {
    let mut pool = PktsHeap::new(4, 9, 32).unwrap();
    let mut held: Vec<Packet> = Vec::new();
    let mut seed: u32 = 12345;
    for _ in 0..2000 {
        seed = seed.wrapping_mul(1103515245).wrapping_add(12345);
        let choice = (seed >> 16) % 4;
        let len = ((seed >> 8) % 100) as usize;
        match choice {
            0 => {
                let before = (pool.free_packet_count(), pool.free_particle_count());
                match pool.pkt(0) {
                    Some(pkt) => held.push(pkt),
                    None => {
                        assert!(before.0 == 0 || before.1 == 0);
                        assert_eq!(before, (pool.free_packet_count(), pool.free_particle_count()));
                    }
                }
            }
            1 => {
                if let Some(pkt) = held.last_mut() {
                    let before = (pkt.len(), pool.free_particle_count());
                    if !pkt.append(&mut pool, &pattern(len)) {
                        assert_eq!(before, (pkt.len(), pool.free_particle_count()));
                    } else {
                        assert_eq!(pkt.len(), before.0 + len);
                    }
                }
            }
            _ => {
                if !held.is_empty() {
                    let at = (seed as usize) % held.len();
                    pool.free_pkt(held.swap_remove(at));
                }
            }
        }
        let in_use: usize = held.iter().map(|p| p.num_particles()).sum();
        assert_eq!(pool.free_particle_count() + in_use, 9);
        assert_eq!(pool.free_packet_count() + held.len(), 4);
        assert!(pool.free_particle_count() <= pool.particle_capacity());
        assert!(pool.free_packet_count() <= pool.packet_capacity());
    }
}
