use nea::index::{
    BucketIndex, ConnectionIndex, Http2FutureIndex, IoIndex, IoResources, QueueIndex,
};

#[test]
fn queue_to_bucket_1() {
    let io_resources = IoResources {
        tcp_streams: 1,
        http_connections: 4,
        http2_futures: 0,
    };

    let queue_index = QueueIndex {
        identifier: 0,
        index: 0,
    };

    assert_eq!(
        IoIndex::from_index(io_resources, queue_index),
        IoIndex::InputStream(BucketIndex {
            identifier: 0,
            index: 0
        })
    );

    let queue_index = QueueIndex {
        identifier: 1,
        index: 5,
    };

    assert_eq!(
        IoIndex::from_index(io_resources, queue_index),
        IoIndex::InputStream(BucketIndex {
            identifier: 1,
            index: 1
        })
    );
}

#[test]
fn queue_to_bucket_2() {
    let io_resources = IoResources {
        tcp_streams: 2,
        http_connections: 4,
        http2_futures: 1,
    };

    let queue_index = QueueIndex {
        identifier: 0,
        index: 0,
    };

    assert_eq!(
        IoIndex::from_index(io_resources, queue_index),
        IoIndex::InputStream(BucketIndex {
            identifier: 0,
            index: 0
        })
    );

    let queue_index = QueueIndex {
        identifier: 1,
        index: 7,
    };

    assert_eq!(
        IoIndex::from_index(io_resources, queue_index),
        IoIndex::InputStream(BucketIndex {
            identifier: 1,
            index: 1
        })
    );
}

#[test]
fn queue_to_connection() {
    let io_resources = IoResources {
        tcp_streams: 1,
        http_connections: 4,
        http2_futures: 0,
    };

    let queue_index = QueueIndex {
        identifier: 0,
        index: 1,
    };

    assert_eq!(
        IoIndex::from_index(io_resources, queue_index),
        IoIndex::HttpConnection(ConnectionIndex {
            identifier: 0,
            index: 0
        })
    );

    let queue_index = QueueIndex {
        identifier: 0,
        index: 2,
    };

    assert_eq!(
        IoIndex::from_index(io_resources, queue_index),
        IoIndex::HttpConnection(ConnectionIndex {
            identifier: 0,
            index: 1
        })
    );

    let queue_index = QueueIndex {
        identifier: 0,
        index: 6,
    };

    assert_eq!(
        IoIndex::from_index(io_resources, queue_index),
        IoIndex::HttpConnection(ConnectionIndex {
            identifier: 0,
            index: 4
        })
    );
}

#[test]
fn connection_to_queue() {
    let io_resources = IoResources {
        tcp_streams: 1,
        http_connections: 4,
        http2_futures: 0,
    };

    let connection_index = ConnectionIndex {
        identifier: 0,
        index: 0,
    };

    let queue_index = QueueIndex {
        identifier: 0,
        index: 1,
    };

    assert_eq!(
        QueueIndex::from_connection_index(io_resources, connection_index),
        queue_index,
    );

    let connection_index = ConnectionIndex {
        identifier: 0,
        index: 1,
    };

    let queue_index = QueueIndex {
        identifier: 0,
        index: 2,
    };

    assert_eq!(
        QueueIndex::from_connection_index(io_resources, connection_index),
        queue_index,
    );

    let connection_index = ConnectionIndex {
        identifier: 0,
        index: 4,
    };

    let queue_index = QueueIndex {
        identifier: 0,
        index: 6,
    };

    assert_eq!(
        QueueIndex::from_connection_index(io_resources, connection_index),
        queue_index,
    );
}

#[test]
fn bucket_to_queue() {
    let io_resources = IoResources {
        tcp_streams: 1,
        http_connections: 4,
        http2_futures: 0,
    };

    let bucket_index = BucketIndex {
        identifier: 0,
        index: 0,
    };

    let queue_index = QueueIndex {
        identifier: 0,
        index: 0,
    };

    assert_eq!(
        QueueIndex::from_bucket_index(io_resources, bucket_index),
        queue_index,
    );

    let bucket_index = BucketIndex {
        identifier: 1,
        index: 1,
    };

    let queue_index = QueueIndex {
        identifier: 1,
        index: 5,
    };

    assert_eq!(
        QueueIndex::from_bucket_index(io_resources, bucket_index),
        queue_index,
    );

    let io_resources = IoResources {
        tcp_streams: 2,
        http_connections: 4,
        http2_futures: 0,
    };

    let bucket_index = BucketIndex {
        identifier: 0,
        index: 0,
    };

    let queue_index = QueueIndex {
        identifier: 0,
        index: 0,
    };

    assert_eq!(
        QueueIndex::from_bucket_index(io_resources, bucket_index),
        queue_index,
    );

    let bucket_index = BucketIndex {
        identifier: 1,
        index: 1,
    };

    let queue_index = QueueIndex {
        identifier: 1,
        index: 6,
    };

    assert_eq!(
        QueueIndex::from_bucket_index(io_resources, bucket_index),
        queue_index,
    );
}

const MIXED: IoResources = IoResources {
    tcp_streams: 1,
    http_connections: 2,
    http2_futures: 3,
};

#[test]
fn queue_to_http2_future() {
    let queue_index = QueueIndex {
        identifier: 9,
        index: 11,
    };

    assert_eq!(
        IoIndex::from_index(MIXED, queue_index),
        IoIndex::Http2Future(Http2FutureIndex {
            identifier: 9,
            index: 5
        })
    );
    assert_eq!(
        IoIndex::from_index(MIXED, QueueIndex { identifier: 9, index: 8 }),
        IoIndex::HttpConnection(ConnectionIndex { identifier: 9, index: 3 })
    );
}

#[test]
fn http2_future_to_queue() {
    let future = Http2FutureIndex {
        identifier: 9,
        index: 5,
    };

    assert_eq!(
        QueueIndex::from_http2_future_index(MIXED, future),
        QueueIndex {
            identifier: 9,
            index: 11
        }
    );
}

#[test]
fn indices_survive_the_round_trip() {
    for index in 0..60u32 {
        let bucket = BucketIndex { identifier: 1, index };
        assert_eq!(QueueIndex::from_bucket_index(MIXED, bucket).to_bucket_index(MIXED), bucket);

        let connection = ConnectionIndex { identifier: 2, index };
        let queue_index = QueueIndex::from_connection_index(MIXED, connection);
        assert_eq!(queue_index.to_connection_index(MIXED), connection);
        assert_eq!(IoIndex::from_index(MIXED, queue_index), IoIndex::HttpConnection(connection));
        assert_eq!(queue_index.to_bucket_index(MIXED).index, index / 2);

        let future = Http2FutureIndex { identifier: 3, index };
        let queue_index = QueueIndex::from_http2_future_index(MIXED, future);
        assert_eq!(queue_index.to_http2_future_index(MIXED), future);
        assert_eq!(IoIndex::from_index(MIXED, queue_index), IoIndex::Http2Future(future));
        assert_eq!(queue_index.to_bucket_index(MIXED).index, index / 3);
    }
}

#[test]
fn indices_survive_the_trip_through_a_word() {
    let index = QueueIndex {
        identifier: 0xDEAD_BEEF,
        index: 0xFFFF_FFFF,
    };

    assert_eq!(index.to_usize(), 0xDEAD_BEEF_FFFF_FFFF);
    assert_eq!(QueueIndex::from_usize(0xDEAD_BEEF_FFFF_FFFF), index);
    assert_eq!(
        QueueIndex::from_usize(7),
        QueueIndex {
            identifier: 0,
            index: 7
        }
    );
}

#[test]
fn buckets_partition_the_slots() {
    let bucket = BucketIndex {
        identifier: 0,
        index: 4,
    };

    assert_eq!(MIXED.per_bucket(), 6);
    assert_eq!(MIXED.queue_slots(bucket), 24..30);
    assert_eq!(MIXED.http_connections(bucket), 8..10);
    assert_eq!(MIXED.http2_futures(bucket), 12..15);
    for index in 0..60u32 {
        let queue_index = QueueIndex { identifier: 0, index };
        let is_inside = MIXED.queue_slots(bucket).contains(&(index as usize));
        assert_eq!(is_inside, queue_index.to_bucket_index(MIXED).index == 4);
    }
}

#[test]
fn a_bucket_has_one_stream_by_default() {
    assert_eq!(
        IoResources::default(),
        IoResources {
            tcp_streams: 1,
            http_connections: 0,
            http2_futures: 0
        }
    );
}

#[test]
fn buckets_without_slots_have_the_first_number() {
    let none = IoResources {
        tcp_streams: 0,
        http_connections: 0,
        http2_futures: 0,
    };
    let bucket_index = BucketIndex { identifier: 3, index: 7 };
    assert_eq!(
        QueueIndex::from_bucket_index(none, bucket_index),
        QueueIndex { identifier: 3, index: 0 }
    );
}
